//! The engine: the state of one input field.

use vstd::prelude::*;
use crate::advice::{LearnedEntry, LearnedView};
use crate::candidate::CandidateList;
use crate::consult::{Question, QuestionView};
use crate::action::{EngineResult, ResultView};
use crate::dictionary::{Dictionary, EntryView};
use crate::kana::hiragana_to_katakana;
use crate::kana;
use crate::lists::add_item;
use crate::preedit::{Preedit, PreeditView};
use crate::preedit;
use crate::settings::{EngineConfig, LearningConfig};
use crate::settings;
use crate::sources;
use crate::state::{InputState, StateView};
use crate::state;
use crate::text::{char_count, chars_of, joined, text_of_range};

verus! {

/// The script that is typed.
#[derive(Debug, Clone, Copy, PartialEq, Eq, Structural)]
pub enum InputMode {
    Hiragana,
    Katakana,
    Alphabet,
    Emoji,
}

/// The mode, and the one to go back to from a temporary one.
#[derive(Debug, Clone, Copy, PartialEq, Eq, Structural)]
pub struct ModeState {
    pub current: InputMode,
    pub saved: Option<InputMode>,
}

/// The mode after a temporary one is left.
pub open spec fn settled_mode(mode: ModeState) -> ModeState {
    match mode.saved {
        Some(saved) => ModeState { current: saved, saved: None },
        None => mode,
    }
}

impl ModeState {
    pub fn current(&self) -> (r: InputMode)
        ensures
            r == self.current,
    {
        self.current
    }

    /// Switches for good.
    pub fn set(&mut self, mode: InputMode)
        ensures
            *final(self) == (ModeState { current: mode, saved: None }),
    {
        *self = ModeState { current: mode, saved: None };
    }

    /// Switches until the text is finished.
    pub fn enter_temporary(&mut self, mode: InputMode)
        ensures
            *final(self) == (ModeState {
                current: mode,
                saved: match old(self).saved {
                    Some(saved) => Some(saved),
                    None => Some(old(self).current),
                },
            }),
    {
        let back = match self.saved {
            Some(saved) => saved,
            None => self.current,
        };
        *self = ModeState { current: mode, saved: Some(back) };
    }

    /// Leaves a temporary mode.
    pub fn exit_temporary(&mut self)
        ensures
            *final(self) == settled_mode(*old(self)),
    {
        if let Some(saved) = self.saved {
            *self = ModeState { current: saved, saved: None };
        }
    }
}

/// What was typed, as kana, and where the next character goes.
pub struct InputBuffer {
    pub text: String,
    pub cursor_pos: usize,
}

/// The position of the cursor, kept inside the text.
pub open spec fn cursor_in(text: Seq<char>, cursor: int) -> int {
    if cursor <= text.len() {
        cursor
    } else {
        text.len() as int
    }
}

/// A text with another one put in at the cursor.
pub open spec fn inserted(text: Seq<char>, cursor: int, more: Seq<char>) -> Seq<char> {
    text.take(cursor_in(text, cursor)) + more + text.skip(cursor_in(text, cursor))
}

fn insert_at(text: &str, cursor: usize, more: &str) -> (r: (String, usize))
    ensures
        r.0@ == inserted(text@, cursor as int, more@),
        r.1 == cursor_in(text@, cursor as int) + more@.len(),
{
    let chars = chars_of(text);
    let n: usize = chars.len();
    let at: usize = if cursor <= n {
        cursor
    } else {
        n
    };
    let before = text_of_range(&chars, 0, at);
    let after = text_of_range(&chars, at, n);
    let front = joined(before.as_str(), more);
    let caret: usize = char_count(front.as_str());
    let whole = joined(front.as_str(), after.as_str());
    assert(text@.take(at as int) =~= chars@.subrange(0, at as int));
    assert(text@.skip(at as int) =~= chars@.subrange(at as int, n as int));
    (whole, caret)
}

impl InputBuffer {
    /// Puts a text in at the cursor.
    pub fn insert(&mut self, more: &str)
        ensures
            final(self).text@ == inserted(old(self).text@, old(self).cursor_pos as int, more@),
            final(self).cursor_pos == cursor_in(old(self).text@, old(self).cursor_pos as int)
                + more@.len(),
    {
        let (text, caret) = insert_at(self.text.as_str(), self.cursor_pos, more);
        self.text = text;
        self.cursor_pos = caret;
    }
}

/// Conversion while typing, and the text it has made.
pub struct LiveConversion {
    pub enabled: bool,
    pub text: String,
}

/// The dictionaries.
pub struct Dictionaries {
    pub user: Option<Dictionary>,
    pub system: Option<Dictionary>,
}

/// A loaded model.
pub struct ModelHandle {
    pub display_name: String,
}

impl DeepView for ModelHandle {
    type V = Seq<char>;

    open spec fn deep_view(&self) -> Seq<char> {
        self.display_name@
    }
}

/// Romaji that is not yet kana.
pub struct RomajiBuffer {
    pub buffer: String,
}

/// The converters: pending romaji, and the models that are loaded.
pub struct Converters {
    pub romaji: RomajiBuffer,
    pub kanji: Option<ModelHandle>,
    pub light_kanji: Option<ModelHandle>,
}

/// The text around the input field, as the application last told it.
pub struct SurroundingContext {
    pub left: Option<String>,
    pub right: Option<String>,
}

#[verifier::ext_equal]
pub struct ContextView {
    pub left: Option<Seq<char>>,
    pub right: Option<Seq<char>>,
}

impl DeepView for SurroundingContext {
    type V = ContextView;

    open spec fn deep_view(&self) -> ContextView {
        ContextView { left: self.left.deep_view(), right: self.right.deep_view() }
    }
}

/// How long things took, and which model ran.
pub struct Metrics {
    pub conversion_ms: u64,
    pub process_key_ms: u64,
    pub model_name: String,
}

#[verifier::ext_equal]
pub struct MetricsView {
    pub conversion_ms: u64,
    pub process_key_ms: u64,
    pub model_name: Seq<char>,
}

impl DeepView for Metrics {
    type V = MetricsView;

    open spec fn deep_view(&self) -> MetricsView {
        MetricsView {
            conversion_ms: self.conversion_ms,
            process_key_ms: self.process_key_ms,
            model_name: self.model_name@,
        }
    }
}

/// The state of one input field.
pub struct InputMethodEngine {
    pub config: EngineConfig,
    pub state: InputState,
    pub mode: ModeState,
    pub input_buf: InputBuffer,
    pub live: LiveConversion,
    /// Converted pieces that conversion while typing can use again.
    pub chunks: Vec<String>,
    pub dicts: Dictionaries,
    pub converters: Converters,
    /// The limits of the history of conversions, where there is one.
    pub learning: Option<LearningConfig>,
    /// Conversions that are still to be written to the history.
    pub recorded: Vec<LearnedEntry>,
    pub surrounding_context: Option<SurroundingContext>,
    pub metrics: Metrics,
    /// Whether models and dictionaries are being loaded in the background.
    pub resource_initialization: bool,
    /// Whether the system dictionary is being updated in the background.
    pub dictionary_update: bool,
}

#[verifier::ext_equal]
pub struct EngineView {
    pub config: EngineConfig,
    pub state: StateView,
    pub mode: ModeState,
    pub text: Seq<char>,
    pub cursor: int,
    pub live_enabled: bool,
    pub live_text: Seq<char>,
    pub chunks: Seq<Seq<char>>,
    pub user: Option<Seq<EntryView>>,
    pub system: Option<Seq<EntryView>>,
    pub romaji: Seq<char>,
    pub kanji: Option<Seq<char>>,
    pub light_kanji: Option<Seq<char>>,
    pub learning: Option<LearningConfig>,
    pub recorded: Seq<LearnedView>,
    pub context: Option<ContextView>,
    pub metrics: MetricsView,
    pub loading: bool,
    pub updating: bool,
}

impl DeepView for InputMethodEngine {
    type V = EngineView;

    open spec fn deep_view(&self) -> EngineView {
        EngineView {
            config: self.config,
            state: self.state.deep_view(),
            mode: self.mode,
            text: self.input_buf.text@,
            cursor: self.input_buf.cursor_pos as int,
            live_enabled: self.live.enabled,
            live_text: self.live.text@,
            chunks: self.chunks.deep_view(),
            user: self.dicts.user.deep_view(),
            system: self.dicts.system.deep_view(),
            romaji: self.converters.romaji.buffer@,
            kanji: self.converters.kanji.deep_view(),
            light_kanji: self.converters.light_kanji.deep_view(),
            learning: self.learning,
            recorded: self.recorded.deep_view(),
            context: self.surrounding_context.deep_view(),
            metrics: self.metrics.deep_view(),
            loading: self.resource_initialization,
            updating: self.dictionary_update,
        }
    }
}

/// The outcome of a step: the engine afterwards and what is to be done, or
/// what has to be known first.
pub open spec fn answered(
    expected: Result<(EngineView, ResultView), QuestionView>,
    before: EngineView,
    after: EngineView,
    r: Result<EngineResult, Question>,
) -> bool {
    match r {
        Ok(result) => expected == Ok::<(EngineView, ResultView), QuestionView>(
            (after, result.deep_view()),
        ),
        Err(question) => expected == Err::<(EngineView, ResultView), QuestionView>(
            question.deep_view(),
        ) && after == before,
    }
}

/// A conversion has a clause in focus.
pub open spec fn focus_exists(e: EngineView) -> bool {
    match e.state {
        StateView::Conversion { segments, active_segment, .. } => 0 <= active_segment
            < segments.len(),
        _ => true,
    }
}

/// What decides which candidates a reading has.
pub open spec fn setting(e: EngineView) -> sources::Setting {
    sources::Setting {
        user: e.user,
        system: e.system,
        learning: e.learning is Some,
        emoji: e.mode.current == InputMode::Emoji,
    }
}

/// The end of a text, at most `limit` characters.
pub open spec fn tail_of(text: Seq<char>, limit: int) -> Seq<char> {
    if text.len() <= limit {
        text
    } else {
        text.skip(text.len() - limit)
    }
}

/// The text on the left of the input field.
pub open spec fn left_of(e: EngineView) -> Seq<char> {
    match e.context {
        Some(ContextView { left: Some(left), .. }) => left,
        _ => Seq::empty(),
    }
}

/// The text on the right of the input field.
pub open spec fn right_of(e: EngineView) -> Seq<char> {
    match e.context {
        Some(ContextView { right: Some(right), .. }) => right,
        _ => Seq::empty(),
    }
}

/// The context that the model sees.
pub open spec fn model_context(e: EngineView) -> Seq<char> {
    tail_of(left_of(e), e.config.max_api_context_len as int)
}

/// The name of the model for display.
pub open spec fn named_model(e: EngineView) -> Seq<char> {
    if e.loading {
        "initializing"@
    } else {
        match e.kanji {
            Some(name) => name,
            None => "unknown"@,
        }
    }
}

/// How the composition is shown: in katakana in katakana mode, else as
/// converted while typing, else as typed; romaji stands at the cursor.
pub open spec fn composing_preedit(e: EngineView) -> PreeditView {
    if e.mode.current != InputMode::Katakana && e.live_text.len() > 0 {
        preedit::underlined(
            e.live_text + e.romaji,
            (e.live_text + e.romaji).len() as int,
        )
    } else {
        let base = if e.mode.current == InputMode::Katakana {
            kana::in_katakana(e.text)
        } else {
            e.text
        };
        preedit::underlined(
            inserted(base, e.cursor, e.romaji),
            cursor_in(base, e.cursor) + e.romaji.len(),
        )
    }
}

/// The engine in the state of composing.
pub open spec fn composing(e: EngineView) -> EngineView {
    EngineView {
        state: StateView::Composing { preedit: composing_preedit(e), romaji_buffer: e.romaji },
        ..e
    }
}

/// An engine with nothing loaded and nothing typed.
pub open spec fn fresh_engine(config: EngineConfig) -> EngineView {
    EngineView {
        config,
        state: StateView::Empty,
        mode: ModeState { current: InputMode::Hiragana, saved: None },
        text: Seq::empty(),
        cursor: 0,
        live_enabled: config.live_conversion,
        live_text: Seq::empty(),
        chunks: Seq::empty(),
        user: None,
        system: None,
        romaji: Seq::empty(),
        kanji: None,
        light_kanji: None,
        learning: None,
        recorded: Seq::empty(),
        context: None,
        metrics: MetricsView { conversion_ms: 0, process_key_ms: 0, model_name: Seq::empty() },
        loading: false,
        updating: false,
    }
}

impl InputMethodEngine {
    /// An engine with nothing loaded and nothing typed.
    pub fn with_config(config: EngineConfig) -> (r: Self)
        ensures
            r.deep_view() == fresh_engine(config),
    {
        let chunks: Vec<String> = Vec::new();
        let recorded: Vec<LearnedEntry> = Vec::new();
        assert(chunks.deep_view() =~= Seq::empty());
        assert(recorded.deep_view() =~= Seq::empty());
        InputMethodEngine {
            config,
            state: InputState::Empty,
            mode: ModeState { current: InputMode::Hiragana, saved: None },
            input_buf: InputBuffer { text: String::new(), cursor_pos: 0 },
            live: LiveConversion { enabled: config.live_conversion, text: String::new() },
            chunks,
            dicts: Dictionaries { user: None, system: None },
            converters: Converters {
                romaji: RomajiBuffer { buffer: String::new() },
                kanji: None,
                light_kanji: None,
            },
            learning: None,
            recorded,
            surrounding_context: None,
            metrics: Metrics { conversion_ms: 0, process_key_ms: 0, model_name: String::new() },
            resource_initialization: false,
            dictionary_update: false,
        }
    }

    /// An engine with nothing loaded, nothing typed and nothing configured.
    pub fn new() -> (r: Self)
        ensures
            r.deep_view() == fresh_engine(settings::default_config()),
    {
        let config: EngineConfig = Default::default();
        InputMethodEngine::with_config(config)
    }

    pub fn state(&self) -> (r: &InputState)
        ensures
            r.deep_view() == self.deep_view().state,
    {
        &self.state
    }

    /// The text on display.
    pub fn preedit(&self) -> (r: Option<&Preedit>)
        ensures
            match (r, self.deep_view().state) {
                (Some(p), StateView::Composing { preedit, .. }) => p.deep_view() == preedit,
                (Some(p), StateView::Conversion { preedit, .. }) => p.deep_view() == preedit,
                (None, StateView::Empty) => true,
                _ => false,
            },
    {
        match &self.state {
            InputState::Empty => None,
            InputState::Composing { preedit, .. } => Some(preedit),
            InputState::Conversion { preedit, .. } => Some(preedit),
        }
    }

    /// The candidates on display.
    pub fn candidates(&self) -> (r: Option<&CandidateList>)
        ensures
            match r {
                Some(list) => state::shown_candidates(self.deep_view().state) == Some(
                    list.deep_view(),
                ),
                None => state::shown_candidates(self.deep_view().state) is None,
            },
    {
        self.state.candidates()
    }

    /// The end of a text, as much of it as the model sees.
    pub fn truncate_context(&self, text: &str) -> (r: String)
        ensures
            r@ == tail_of(text@, self.deep_view().config.max_api_context_len as int),
    {
        let chars = chars_of(text);
        let n: usize = chars.len();
        if n <= self.config.max_api_context_len {
            return text.to_owned();
        }
        let start: usize = n - self.config.max_api_context_len;
        assert(text@.skip(start as int) =~= chars@.subrange(start as int, n as int));
        text_of_range(&chars, start, n)
    }

    /// The context that the model sees.
    pub fn truncate_context_for_api(&self) -> (r: String)
        ensures
            r@ == model_context(self.deep_view()),
    {
        match &self.surrounding_context {
            Some(SurroundingContext { left: Some(left), .. }) => self.truncate_context(
                left.as_str(),
            ),
            _ => {
                let none = String::new();
                self.truncate_context(none.as_str())
            },
        }
    }

    /// Notes the text around the input field.
    pub fn set_surrounding_context(&mut self, left: &str, right: &str)
        ensures
            final(self).deep_view() == (EngineView {
                context: Some(ContextView { left: Some(left@), right: Some(right@) }),
                ..old(self).deep_view()
            }),
    {
        self.surrounding_context = Some(
            SurroundingContext { left: Some(left.to_owned()), right: Some(right.to_owned()) },
        );
    }

    /// The name of the model for display.
    pub fn model_name(&self) -> (r: String)
        ensures
            r@ == named_model(self.deep_view()),
    {
        if self.resource_initialization {
            "initializing".to_owned()
        } else {
            match &self.converters.kanji {
                Some(model) => model.display_name.clone(),
                None => "unknown".to_owned(),
            }
        }
    }

    /// Goes over to composing, and says how the text is shown.
    pub fn set_composing_state(&mut self) -> (r: Preedit)
        ensures
            final(self).deep_view() == composing(old(self).deep_view()),
            r.deep_view() == composing_preedit(old(self).deep_view()),
    {
        let romaji = self.converters.romaji.buffer.clone();
        let preedit = if self.mode.current != InputMode::Katakana
            && !self.live.text.as_str().is_empty() {
            let text = joined(self.live.text.as_str(), romaji.as_str());
            Preedit::with_text_underlined(text.as_str())
        } else {
            let base = if self.mode.current == InputMode::Katakana {
                hiragana_to_katakana(self.input_buf.text.as_str())
            } else {
                self.input_buf.text.clone()
            };
            let (text, caret) = insert_at(
                base.as_str(),
                self.input_buf.cursor_pos,
                romaji.as_str(),
            );
            Preedit::underlined_at(text.as_str(), caret)
        };
        self.state = InputState::Composing { preedit: preedit.clone(), romaji_buffer: romaji };
        preedit
    }

    /// Notes a conversion for the history, where there is one.
    pub fn record_learning(&mut self, reading: &str, surface: &str)
        ensures
            final(self).deep_view() == recorded_one(old(self).deep_view(), reading@, surface@),
    {
        if self.learning.is_some() {
            let entry = LearnedEntry { reading: reading.to_owned(), surface: surface.to_owned() };
            add_item(&mut self.recorded, entry);
        }
    }

    /// Hands out the conversions that are to be written to the history.
    pub fn take_recorded(&mut self) -> (r: Vec<LearnedEntry>)
        ensures
            r.deep_view() == old(self).deep_view().recorded,
            final(self).deep_view() == (EngineView {
                recorded: Seq::empty(),
                ..old(self).deep_view()
            }),
    {
        let mut none: Vec<LearnedEntry> = Vec::new();
        assert(none.deep_view() =~= Seq::empty());
        std::mem::swap(&mut none, &mut self.recorded);
        none
    }
}

/// The engine after a conversion was noted for the history.
pub open spec fn recorded_one(e: EngineView, reading: Seq<char>, surface: Seq<char>) -> EngineView {
    if e.learning is Some {
        EngineView { recorded: e.recorded.push(LearnedView { reading, surface }), ..e }
    } else {
        e
    }
}

} // verus!
