//! Typing, and the keys outside a conversion.

use vstd::prelude::*;
use crate::action::{ActionView, AuxText, AuxView, EngineAction, EngineResult, ResultView};
use crate::action;
use crate::coherence;
use crate::consult::{Answers, AnswersView, Question, QuestionView};
use crate::consult::find_step;
use crate::consult;
use crate::conversion;
use crate::engine::{EngineView, InputMethodEngine, InputMode, ModeState};
use crate::engine;
use crate::kana::hiragana_to_katakana;
use crate::kana;
use crate::keycode::{KeyEvent, Keysym};
use crate::keycode;
use crate::mode;
use crate::preedit::Preedit;
use crate::preedit;
use crate::state::InputState;

verus! {

/// The engine after a character that made `kana` of the pending romaji and
/// left `rest` of it.
pub open spec fn after_step(e: EngineView, kana: Seq<char>, rest: Seq<char>) -> EngineView {
    engine::composing(
        EngineView {
            text: engine::inserted(e.text, e.cursor, kana),
            cursor: engine::cursor_in(e.text, e.cursor) + kana.len(),
            romaji: rest,
            live_text: Seq::empty(),
            ..e
        },
    )
}

/// What is shown of a composition after typing.
pub open spec fn typing(after: EngineView) -> ResultView {
    action::consumed(
        seq![
            ActionView::UpdatePreedit(engine::composing_preedit(after)),
            ActionView::UpdateAuxText(AuxView::Composing),
        ],
    )
}

/// Inserting a character as it is, behind the kana of pending romaji.
pub open spec fn spelled(e: EngineView, ch: char, answers: AnswersView) -> conversion::Step {
    match conversion::flushed(e, answers) {
        Ok(f) => {
            let after = after_step(f, seq![ch], f.romaji);
            Ok((after, typing(after)))
        },
        Err(question) => Err(question),
    }
}

/// Typing a character: romaji, but for alphabet mode, which takes characters
/// as they are.
pub open spec fn typed(e: EngineView, ch: char, answers: AnswersView) -> conversion::Step {
    if e.mode.current == InputMode::Alphabet {
        spelled(e, ch, answers)
    } else {
        match consult::step_for(answers.typed, e.romaji, ch) {
            Some(step) => {
                let after = after_step(e, step.kana, step.rest);
                Ok((after, typing(after)))
            },
            None => Err(QuestionView::Type { buffer: e.romaji, ch }),
        }
    }
}

/// The engine in alphabet mode for the rest of the composition.
pub open spec fn in_alphabet(e: EngineView) -> EngineView {
    EngineView {
        mode: ModeState {
            current: InputMode::Alphabet,
            saved: match e.mode.saved {
                Some(saved) => Some(saved),
                None => Some(e.mode.current),
            },
        },
        ..e
    }
}

impl InputMethodEngine {
    fn show_typing(&mut self) -> (r: EngineResult)
        ensures
            final(self).deep_view() == engine::composing(old(self).deep_view()),
            r.deep_view() == typing(final(self).deep_view()),
    {
        let preedit = self.set_composing_state();
        let result = EngineResult::consumed().with_action(
            EngineAction::UpdatePreedit(preedit),
        ).with_action(EngineAction::UpdateAuxText(AuxText::Composing));
        assert(result.deep_view().actions =~= typing(self.deep_view()).actions);
        result
    }

    fn spell(&mut self, ch: char, answers: &Answers) -> (r: Result<EngineResult, Question>)
        ensures
            engine::answered(
                spelled(old(self).deep_view(), ch, answers.deep_view()),
                old(self).deep_view(),
                final(self).deep_view(),
                r,
            ),
    {
        if let Err(question) = self.flush_romaji_to_composed(answers) {
            return Err(question);
        }
        let mut letter = String::new();
        letter.push(ch);
        assert(letter@ =~= seq![ch]);
        self.input_buf.insert(letter.as_str());
        self.live.text = String::new();
        assert(self.live.text@ =~= Seq::empty());
        Ok(self.show_typing())
    }

    /// Types a letter in alphabet mode, which lasts for the composition.
    pub fn start_alphabet(&mut self, ch: char, answers: &Answers) -> (r: Result<
        EngineResult,
        Question,
    >)
        ensures
            engine::answered(
                typed(in_alphabet(old(self).deep_view()), ch, answers.deep_view()),
                old(self).deep_view(),
                final(self).deep_view(),
                r,
            ),
    {
        if let Err(question) = self.flush_romaji_to_composed(answers) {
            return Err(question);
        }
        self.mode.enter_temporary(InputMode::Alphabet);
        self.spell(ch, answers)
    }

    /// Types a character.
    pub fn start_input(&mut self, ch: char, answers: &Answers) -> (r: Result<
        EngineResult,
        Question,
    >)
        ensures
            engine::answered(
                typed(old(self).deep_view(), ch, answers.deep_view()),
                old(self).deep_view(),
                final(self).deep_view(),
                r,
            ),
    {
        if self.mode.current == InputMode::Alphabet {
            return self.spell(ch, answers);
        }
        match find_step(&answers.typed, self.converters.romaji.buffer.as_str(), ch) {
            Some(step) => {
                self.input_buf.insert(step.kana.as_str());
                self.converters.romaji.buffer = step.rest.clone();
                self.live.text = String::new();
                assert(self.live.text@ =~= Seq::empty());
                Ok(self.show_typing())
            },
            None => Err(Question::Type { buffer: self.converters.romaji.buffer.clone(), ch }),
        }
    }
}

/// The text of a composition: in katakana in katakana mode, else as converted
/// while typing, else as typed.
pub open spec fn composed_text(e: EngineView) -> Seq<char> {
    if e.mode.current == InputMode::Katakana {
        kana::in_katakana(e.text)
    } else if e.live_text.len() > 0 {
        e.live_text
    } else {
        e.text
    }
}

/// The engine with nothing typed and nothing pending.
pub open spec fn cleared(e: EngineView) -> EngineView {
    EngineView { cursor: 0, romaji: Seq::empty(), ..conversion::emptied(e) }
}

/// Committing a composition as it is.
pub open spec fn composition_committed(e: EngineView, answers: AnswersView) -> conversion::Step {
    match conversion::flushed(e, answers) {
        Err(question) => Err(question),
        Ok(f) => Ok(
            (
                cleared(f),
                action::consumed(
                    seq![ActionView::HideAuxText, ActionView::Commit(composed_text(f))],
                ),
            ),
        ),
    }
}

/// Giving a composition up.
pub open spec fn composition_dropped(e: EngineView) -> (EngineView, ResultView) {
    (
        cleared(e),
        action::consumed(
            seq![
                ActionView::UpdatePreedit(preedit::unmarked(Seq::empty())),
                ActionView::HideAuxText,
            ],
        ),
    )
}

impl InputMethodEngine {
    fn clear_input(&mut self)
        ensures
            final(self).deep_view() == cleared(old(self).deep_view()),
    {
        self.empty_after_commit();
        self.input_buf.cursor_pos = 0;
        self.converters.romaji.buffer = String::new();
        assert(self.converters.romaji.buffer@ =~= Seq::empty());
    }

    /// Commits the composition as it is.
    pub fn commit_composing(&mut self, answers: &Answers) -> (r: Result<EngineResult, Question>)
        ensures
            engine::answered(
                composition_committed(old(self).deep_view(), answers.deep_view()),
                old(self).deep_view(),
                final(self).deep_view(),
                r,
            ),
    {
        if let Err(question) = self.flush_romaji_to_composed(answers) {
            return Err(question);
        }
        let text = if self.mode.current == InputMode::Katakana {
            hiragana_to_katakana(self.input_buf.text.as_str())
        } else if !self.live.text.as_str().is_empty() {
            self.live.text.clone()
        } else {
            self.input_buf.text.clone()
        };
        let ghost view = text@;
        self.clear_input();
        let result = EngineResult::consumed().with_action(EngineAction::HideAuxText).with_action(
            EngineAction::Commit(text),
        );
        assert(result.deep_view().actions =~= seq![
            ActionView::HideAuxText,
            ActionView::Commit(view),
        ]);
        Ok(result)
    }

    /// Gives the composition up.
    pub fn cancel_composing(&mut self) -> (r: EngineResult)
        ensures
            (final(self).deep_view(), r.deep_view()) == composition_dropped(old(self).deep_view()),
    {
        self.clear_input();
        let result = EngineResult::consumed().with_action(
            EngineAction::UpdatePreedit(Preedit::new()),
        ).with_action(EngineAction::HideAuxText);
        assert(result.deep_view().actions =~= composition_dropped(old(self).deep_view()).1.actions);
        result
    }
}

/// A chord of Control and a letter, without Alt.
pub open spec fn chord(key: KeyEvent, lower: u32, upper: u32) -> bool {
    key.modifiers.control_key && !key.modifiers.alt_key && (key.keysym == lower || key.keysym
        == upper)
}

/// Shift and a letter.
pub open spec fn capital(key: KeyEvent) -> bool {
    key.modifiers.shift_key && !key.modifiers.control_key && !key.modifiers.alt_key && (
    'A' as u32 <= key.keysym <= 'Z' as u32 || 'a' as u32 <= key.keysym <= 'z' as u32)
}

/// What a key does.
pub open spec fn key_step(e: EngineView, key: KeyEvent, answers: AnswersView) -> conversion::Step {
    let bare = !key.modifiers.control_key && !key.modifiers.alt_key;
    if chord(key, Keysym::KEY_L, Keysym::KEY_L_UPPER) && key.modifiers.shift_key {
        mode::live_toggled(e, answers)
    } else if e.state is Conversion && chord(key, Keysym::KEY_Z, Keysym::KEY_Z_UPPER) {
        conversion::cancelled(e, answers)
    } else if !(e.state is Empty) && chord(key, Keysym::KEY_J, Keysym::KEY_J_UPPER) {
        mode::in_script(e, InputMode::Hiragana, answers)
    } else if !(e.state is Empty) && chord(key, Keysym::KEY_K, Keysym::KEY_K_UPPER) {
        mode::in_script(e, InputMode::Katakana, answers)
    } else if chord(key, Keysym::KEY_K, Keysym::KEY_K_UPPER) {
        Ok(mode::katakana_entered(e))
    } else if e.state is Conversion {
        conversion::conversion_step(e, key, answers)
    } else if capital(key) {
        typed(in_alphabet(e), key.keysym as char, answers)
    } else if e.state is Composing && bare && key.keysym == Keysym::SPACE && e.mode.current
        == InputMode::Alphabet {
        typed(e, ' ', answers)
    } else if e.state is Composing && bare && (key.keysym == Keysym::SPACE || key.keysym
        == Keysym::DOWN) {
        conversion::started(e, false, answers)
    } else if e.state is Composing && bare && key.keysym == Keysym::TAB {
        conversion::started(e, true, answers)
    } else if e.state is Composing && bare && key.keysym == Keysym::RETURN {
        composition_committed(e, answers)
    } else if e.state is Composing && bare && key.keysym == Keysym::ESCAPE {
        Ok(composition_dropped(e))
    } else if bare && key.keysym != Keysym::SPACE && keycode::char_of(key.keysym) is Some {
        typed(e, keycode::char_of(key.keysym)->0, answers)
    } else {
        Ok((e, action::not_consumed()))
    }
}

fn is_chord(key: &KeyEvent, lower: u32, upper: u32) -> (r: bool)
    ensures
        r == chord(*key, lower, upper),
{
    key.modifiers.control_key && !key.modifiers.alt_key && (key.keysym == lower || key.keysym
        == upper)
}

fn is_capital(key: &KeyEvent) -> (r: bool)
    ensures
        r == capital(*key),
{
    let k: u32 = key.keysym;
    key.modifiers.shift_key && !key.modifiers.control_key && !key.modifiers.alt_key && (0x41 <= k
        && k <= 0x5a || 0x61 <= k && k <= 0x7a)
}

impl InputMethodEngine {
    /// Handles a key.
    pub fn process_key(&mut self, key: &KeyEvent, answers: &Answers) -> (r: Result<
        EngineResult,
        Question,
    >)
        requires
            engine::focus_exists(old(self).deep_view()),
        ensures
            engine::answered(
                key_step(old(self).deep_view(), *key, answers.deep_view()),
                old(self).deep_view(),
                final(self).deep_view(),
                r,
            ),
            engine::focus_exists(final(self).deep_view()),
    {
        proof {
            coherence::law_every_key_keeps_a_focus(self.deep_view(), *key, answers.deep_view());
        }
        let bare = !key.modifiers.control_key && !key.modifiers.alt_key;
        let converting = matches!(self.state, InputState::Conversion { .. });
        let composing = matches!(self.state, InputState::Composing { .. });
        if is_chord(key, Keysym::KEY_L, Keysym::KEY_L_UPPER) && key.modifiers.shift_key {
            return self.toggle_live_conversion(answers);
        }
        if converting && is_chord(key, Keysym::KEY_Z, Keysym::KEY_Z_UPPER) {
            return self.cancel_conversion(answers);
        }
        if (converting || composing) && is_chord(key, Keysym::KEY_J, Keysym::KEY_J_UPPER) {
            return self.convert_preedit_to_hiragana(answers);
        }
        if is_chord(key, Keysym::KEY_K, Keysym::KEY_K_UPPER) {
            if converting || composing {
                return self.convert_preedit_to_katakana(answers);
            }
            return Ok(self.enter_katakana_mode());
        }
        if converting {
            return self.process_key_conversion(key, answers);
        }
        if is_capital(key) {
            if let Some(ch) = key.to_char() {
                return self.start_alphabet(ch, answers);
            }
        }
        if composing && bare && key.keysym == Keysym::SPACE && self.mode.current
            == InputMode::Alphabet {
            return self.start_input(' ', answers);
        }
        if composing && bare && (key.keysym == Keysym::SPACE || key.keysym == Keysym::DOWN) {
            return self.start_conversion(false, answers);
        }
        if composing && bare && key.keysym == Keysym::TAB {
            return self.start_conversion(true, answers);
        }
        if composing && bare && key.keysym == Keysym::RETURN {
            return self.commit_composing(answers);
        }
        if composing && bare && key.keysym == Keysym::ESCAPE {
            return Ok(self.cancel_composing());
        }
        if bare && key.keysym != Keysym::SPACE {
            if let Some(ch) = key.to_char() {
                return self.start_input(ch, answers);
            }
        }
        Ok(EngineResult::not_consumed())
    }
}

} // verus!
