//! Switching the script and conversion while typing.

use vstd::prelude::*;
use crate::action::{ActionView, AuxText, AuxView, EngineAction, EngineResult, ResultView};
use crate::action;
use crate::consult::{Answers, AnswersView, Question};
use crate::conversion;
use crate::engine::{EngineView, InputMethodEngine, InputMode, ModeState};
use crate::engine;
use crate::kana::katakana_to_hiragana;
use crate::kana;
use crate::lists::add_item;
use crate::model;
use crate::state::InputState;
use crate::text::{char_count, joined};

verus! {

/// The text being composed in a kana script: what was selected is dropped,
/// the reading stays, and nothing is committed.
pub open spec fn in_script(e: EngineView, target: InputMode, answers: AnswersView) -> conversion::Step {
    match conversion::flushed(e, answers) {
        Err(question) => Err(question),
        Ok(e) => {
            let text = if target == InputMode::Hiragana {
                kana::in_hiragana(e.text)
            } else {
                e.text
            };
            let after = EngineView {
                text,
                cursor: engine::cursor_in(text, e.cursor),
                romaji: Seq::empty(),
                mode: ModeState { current: target, saved: None },
                live_text: Seq::empty(),
                chunks: Seq::empty(),
                ..e
            };
            Ok(
                (
                    engine::composing(after),
                    action::consumed(
                        seq![
                            ActionView::UpdatePreedit(engine::composing_preedit(after)),
                            ActionView::HideCandidates,
                            ActionView::UpdateAuxText(AuxView::Composing),
                        ],
                    ),
                ),
            )
        },
    }
}

/// The sign of a mode.
pub open spec fn mode_sign(mode: InputMode) -> Seq<char> {
    match mode {
        InputMode::Hiragana => "あ"@,
        InputMode::Katakana => "ア"@,
        InputMode::Alphabet => "A"@,
        InputMode::Emoji => ":"@,
    }
}

/// The line that shows the mode and the model.
pub open spec fn mode_line(e: EngineView) -> Seq<char> {
    mode_sign(e.mode.current) + " Karukan ("@ + engine::named_model(e) + ")"@
}

/// Switching to katakana; typing on goes on in katakana.
pub open spec fn katakana_entered(e: EngineView) -> (EngineView, ResultView) {
    if e.mode.current == InputMode::Katakana {
        (e, action::consumed(Seq::empty()))
    } else {
        let after = EngineView {
            mode: ModeState { current: InputMode::Katakana, saved: None },
            live_text: Seq::empty(),
            ..e
        };
        if e.text.len() == 0 && e.romaji.len() == 0 {
            (after, action::consumed(Seq::empty()))
        } else {
            (
                engine::composing(after),
                action::consumed(
                    seq![
                        ActionView::UpdatePreedit(engine::composing_preedit(after)),
                        ActionView::UpdateAuxText(AuxView::Text(mode_line(after))),
                    ],
                ),
            )
        }
    }
}

/// Converting the text that is being composed.
pub open spec fn refreshed(e: EngineView, answers: AnswersView) -> conversion::Step {
    match model::auto_text(e, e.text, engine::model_context(e), answers) {
        Err(question) => Err(question),
        Ok(text) => {
            let after = EngineView { live_text: text, chunks: seq![text], ..e };
            Ok(
                (
                    engine::composing(after),
                    action::consumed(
                        seq![
                            ActionView::UpdatePreedit(engine::composing_preedit(after)),
                            ActionView::UpdateAuxText(AuxView::Composing),
                        ],
                    ),
                ),
            )
        },
    }
}

/// The line that shows whether conversion while typing is on.
pub open spec fn live_line(on: bool) -> Seq<char> {
    if on {
        "ライブ変換: ON"@
    } else {
        "ライブ変換: OFF"@
    }
}

/// Switching conversion while typing on or off: the text being composed is
/// converted at once, or goes back to kana at once.
pub open spec fn live_toggled(e: EngineView, answers: AnswersView) -> conversion::Step {
    let on = !e.live_enabled;
    let switched = EngineView { live_enabled: on, ..e };
    let aux = ActionView::UpdateAuxText(AuxView::Text(live_line(on)));
    if e.state is Composing && e.mode.current != InputMode::Katakana && on {
        match refreshed(switched, answers) {
            Ok((after, result)) => Ok(
                (after, ResultView { actions: result.actions.push(aux), ..result }),
            ),
            Err(question) => Err(question),
        }
    } else if e.state is Composing && e.mode.current != InputMode::Katakana && e.live_text.len()
        > 0 {
        let after = EngineView { live_text: Seq::empty(), ..switched };
        Ok(
            (
                engine::composing(after),
                action::consumed(
                    seq![ActionView::UpdatePreedit(engine::composing_preedit(after)), aux],
                ),
            ),
        )
    } else {
        Ok((switched, action::consumed(seq![aux])))
    }
}

impl InputMethodEngine {
    /// Puts the text being composed or converted into a kana script.
    pub fn convert_preedit_script(&mut self, target: InputMode, answers: &Answers) -> (r: Result<
        EngineResult,
        Question,
    >)
        requires
            target == InputMode::Hiragana || target == InputMode::Katakana,
        ensures
            engine::answered(
                in_script(old(self).deep_view(), target, answers.deep_view()),
                old(self).deep_view(),
                final(self).deep_view(),
                r,
            ),
    {
        if let Err(question) = self.flush_romaji_to_composed(answers) {
            return Err(question);
        }
        if target == InputMode::Hiragana {
            self.input_buf.text = katakana_to_hiragana(self.input_buf.text.as_str());
        }
        let n: usize = char_count(self.input_buf.text.as_str());
        if self.input_buf.cursor_pos > n {
            self.input_buf.cursor_pos = n;
        }
        self.converters.romaji.buffer = String::new();
        assert(self.converters.romaji.buffer@ =~= Seq::empty());
        self.mode.set(target);
        self.live.text = String::new();
        assert(self.live.text@ =~= Seq::empty());
        self.chunks = Vec::new();
        assert(self.chunks.deep_view() =~= Seq::empty());
        let preedit = self.set_composing_state();
        let result = EngineResult::consumed().with_action(
            EngineAction::UpdatePreedit(preedit),
        ).with_action(EngineAction::HideCandidates).with_action(
            EngineAction::UpdateAuxText(AuxText::Composing),
        );
        assert(result.deep_view().actions =~= seq![
            ActionView::UpdatePreedit(preedit.deep_view()),
            ActionView::HideCandidates,
            ActionView::UpdateAuxText(AuxView::Composing),
        ]);
        Ok(result)
    }

    /// Puts the text into hiragana.
    pub fn convert_preedit_to_hiragana(&mut self, answers: &Answers) -> (r: Result<
        EngineResult,
        Question,
    >)
        ensures
            engine::answered(
                in_script(old(self).deep_view(), InputMode::Hiragana, answers.deep_view()),
                old(self).deep_view(),
                final(self).deep_view(),
                r,
            ),
    {
        self.convert_preedit_script(InputMode::Hiragana, answers)
    }

    /// Puts the text into katakana.
    pub fn convert_preedit_to_katakana(&mut self, answers: &Answers) -> (r: Result<
        EngineResult,
        Question,
    >)
        ensures
            engine::answered(
                in_script(old(self).deep_view(), InputMode::Katakana, answers.deep_view()),
                old(self).deep_view(),
                final(self).deep_view(),
                r,
            ),
    {
        self.convert_preedit_script(InputMode::Katakana, answers)
    }

    /// The sign of the mode.
    pub fn mode_indicator(&self) -> (r: String)
        ensures
            r@ == mode_sign(self.deep_view().mode.current),
    {
        match self.mode.current {
            InputMode::Hiragana => "あ".to_owned(),
            InputMode::Katakana => "ア".to_owned(),
            InputMode::Alphabet => "A".to_owned(),
            InputMode::Emoji => ":".to_owned(),
        }
    }

    /// Switches to katakana.
    pub fn enter_katakana_mode(&mut self) -> (r: EngineResult)
        ensures
            (final(self).deep_view(), r.deep_view()) == katakana_entered(old(self).deep_view()),
    {
        if self.mode.current == InputMode::Katakana {
            return EngineResult::consumed();
        }
        self.mode.set(InputMode::Katakana);
        self.live.text = String::new();
        assert(self.live.text@ =~= Seq::empty());
        if self.input_buf.text.as_str().is_empty() && self.converters.romaji.buffer.as_str().is_empty() {
            return EngineResult::consumed();
        }
        let preedit = self.set_composing_state();
        let sign = self.mode_indicator();
        let named = joined(sign.as_str(), " Karukan (");
        let name = self.model_name();
        let opened = joined(named.as_str(), name.as_str());
        let line = joined(opened.as_str(), ")");
        let r = EngineResult::consumed().with_action(
            EngineAction::UpdatePreedit(preedit),
        ).with_action(EngineAction::UpdateAuxText(AuxText::Text(line)));
        assert(r.deep_view().actions =~= katakana_entered(old(self).deep_view()).1.actions);
        r
    }

    /// Converts the text that is being composed.
    pub fn refresh_input_state(&mut self, answers: &Answers) -> (r: Result<EngineResult, Question>)
        ensures
            engine::answered(
                refreshed(old(self).deep_view(), answers.deep_view()),
                old(self).deep_view(),
                final(self).deep_view(),
                r,
            ),
    {
        let reading = self.input_buf.text.clone();
        let context = self.truncate_context_for_api();
        let text = match self.conservative_auto_convert_reading(
            reading.as_str(),
            context.as_str(),
            answers,
        ) {
            Ok(text) => text,
            Err(question) => return Err(question),
        };
        let mut chunks: Vec<String> = Vec::new();
        assert(chunks.deep_view() =~= Seq::empty());
        add_item(&mut chunks, text.clone());
        assert(chunks.deep_view() =~= seq![text@]);
        self.chunks = chunks;
        self.live.text = text;
        let preedit = self.set_composing_state();
        let result = EngineResult::consumed().with_action(
            EngineAction::UpdatePreedit(preedit),
        ).with_action(EngineAction::UpdateAuxText(AuxText::Composing));
        assert(result.deep_view().actions =~= seq![
            ActionView::UpdatePreedit(preedit.deep_view()),
            ActionView::UpdateAuxText(AuxView::Composing),
        ]);
        Ok(result)
    }

    /// Switches conversion while typing on or off.
    pub fn toggle_live_conversion(&mut self, answers: &Answers) -> (r: Result<
        EngineResult,
        Question,
    >)
        ensures
            engine::answered(
                live_toggled(old(self).deep_view(), answers.deep_view()),
                old(self).deep_view(),
                final(self).deep_view(),
                r,
            ),
    {
        let ghost e = self.deep_view();
        self.live.enabled = !self.live.enabled;
        let line: &str = if self.live.enabled {
            "ライブ変換: ON"
        } else {
            "ライブ変換: OFF"
        };
        let aux = EngineAction::UpdateAuxText(AuxText::Text(line.to_owned()));
        let ghost aux_view = aux.deep_view();
        if matches!(self.state, InputState::Composing { .. }) && self.mode.current
            != InputMode::Katakana {
            if self.live.enabled {
                return match self.refresh_input_state(answers) {
                    Ok(result) => {
                        let mut result = result;
                        add_item(&mut result.actions, aux);
                        Ok(result)
                    },
                    Err(question) => {
                        self.live.enabled = false;
                        Err(question)
                    },
                };
            }
            if !self.live.text.as_str().is_empty() {
                self.live.text = String::new();
                assert(self.live.text@ =~= Seq::empty());
                let preedit = self.set_composing_state();
                let result = EngineResult::consumed().with_action(
                    EngineAction::UpdatePreedit(preedit),
                ).with_action(aux);
                assert(result.deep_view().actions =~= seq![
                    ActionView::UpdatePreedit(preedit.deep_view()),
                    aux_view,
                ]);
                return Ok(result);
            }
        }
        let result = EngineResult::consumed().with_action(aux);
        assert(result.deep_view().actions =~= seq![aux_view]);
        Ok(result)
    }
}

} // verus!
