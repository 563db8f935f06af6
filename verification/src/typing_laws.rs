//! What keys do, told by what the user sees and by the numbers of the keys.

use vstd::prelude::*;
use crate::action::{ActionView, AuxView, EngineResult, ResultView};
use crate::candidate::Navigation;
use crate::clause_laws;
use crate::consult::{AnswersView, FlushedView, Question, QuestionView, StepView};
use crate::consult;
use crate::conversion;
use crate::engine::{EngineView, InputMode};
use crate::engine;
use crate::input;
use crate::kana;
use crate::keycode::{ConversionCommand, KeyEvent};
use crate::keycode;
use crate::mode;
use crate::model;
use crate::preedit::{AttributeType, PreeditView};
use crate::segmentation;
use crate::spans::SpanView;
use crate::state::StateView;

verus! {

/// The key is the letter, small or capital, with Control and without Alt.
pub open spec fn with_control(key: KeyEvent, letter: u32) -> bool {
    key.modifiers.control_key && !key.modifiers.alt_key && (key.keysym == letter || key.keysym
        == letter - 0x20)
}

/// The key is pressed without Control and Alt.
pub open spec fn plain_key(key: KeyEvent, number: u32) -> bool {
    !key.modifiers.control_key && !key.modifiers.alt_key && key.keysym == number
}

/// What the named keys mean in a conversion, whatever is held down with them.
pub proof fn law_named_keys_of_a_conversion(key: KeyEvent)
    ensures
        key.keysym == 0xff0d ==> keycode::command_of(key) == ConversionCommand::Commit,
        key.keysym == 0xff1b ==> keycode::command_of(key) == ConversionCommand::Cancel,
        key.keysym == 0xff09 || key.keysym == 0x20 && !key.modifiers.shift_key || key.keysym
            == 0xff54 && !key.modifiers.shift_key ==> keycode::command_of(key)
            == ConversionCommand::Navigate(Navigation::Next),
        key.keysym == 0x20 && key.modifiers.shift_key || key.keysym == 0xff52
            && !key.modifiers.shift_key ==> keycode::command_of(key) == ConversionCommand::Navigate(
            Navigation::Previous,
        ),
        key.keysym == 0xff56 || key.keysym == 0xff54 && key.modifiers.shift_key
            ==> keycode::command_of(key) == ConversionCommand::Navigate(Navigation::NextPage),
        key.keysym == 0xff55 || key.keysym == 0xff52 && key.modifiers.shift_key
            ==> keycode::command_of(key) == ConversionCommand::Navigate(Navigation::PreviousPage),
        key.keysym == 0xff51 && key.modifiers.shift_key ==> keycode::command_of(key)
            == ConversionCommand::Shrink,
        key.keysym == 0xff51 && !key.modifiers.shift_key ==> keycode::command_of(key)
            == ConversionCommand::PreviousSegment,
        key.keysym == 0xff53 && key.modifiers.shift_key ==> keycode::command_of(key)
            == ConversionCommand::Expand,
        key.keysym == 0xff53 && !key.modifiers.shift_key ==> keycode::command_of(key)
            == ConversionCommand::NextSegment,
        (key.keysym == 0xff08 || key.keysym == 0xffff) && key.modifiers.control_key
            && !key.modifiers.alt_key ==> keycode::command_of(key) == ConversionCommand::Forget,
        key.keysym == 0xff08 && !(key.modifiers.control_key && !key.modifiers.alt_key)
            ==> keycode::command_of(key) == ConversionCommand::Cancel,
        key.keysym == 0xffff && !(key.modifiers.control_key && !key.modifiers.alt_key)
            ==> keycode::command_of(key) == ConversionCommand::Pass,
{
}

/// What letters, digits and signs mean in a conversion: some letters with
/// Control, a digit from one to nine alone or held down with anything, and any
/// other character without Control and Alt. Other keys mean nothing.
pub proof fn law_character_keys_of_a_conversion(key: KeyEvent)
    ensures
        with_control(key, 0x6e) ==> keycode::command_of(key) == ConversionCommand::Navigate(
            Navigation::Next,
        ),
        with_control(key, 0x70) ==> keycode::command_of(key) == ConversionCommand::Navigate(
            Navigation::Previous,
        ),
        with_control(key, 0x76) ==> keycode::command_of(key) == ConversionCommand::Navigate(
            Navigation::NextPage,
        ),
        with_control(key, 0x72) ==> keycode::command_of(key) == ConversionCommand::Navigate(
            Navigation::PreviousPage,
        ),
        with_control(key, 0x62) ==> keycode::command_of(key) == ConversionCommand::NextSegment,
        with_control(key, 0x66) ==> keycode::command_of(key) == ConversionCommand::PreviousSegment,
        with_control(key, 0x77) || with_control(key, 0x6f) ==> keycode::command_of(key)
            == ConversionCommand::Expand,
        with_control(key, 0x69) ==> keycode::command_of(key) == ConversionCommand::Shrink,
        with_control(key, 0x68) ==> keycode::command_of(key) == ConversionCommand::Cancel,
        0x31 <= key.keysym <= 0x39 ==> keycode::command_of(key) == ConversionCommand::Navigate(
            Navigation::Digit((key.keysym - 0x30) as usize),
        ),
        (0x21 <= key.keysym <= 0x30 || 0x3a <= key.keysym <= 0x7e || 0xa0 <= key.keysym <= 0xff)
            && !key.modifiers.control_key && !key.modifiers.alt_key ==> keycode::command_of(key)
            == ConversionCommand::CommitAndType(key.keysym as char),
        (0x21 <= key.keysym <= 0x30 || 0x3a <= key.keysym <= 0x7e || 0xa0 <= key.keysym <= 0xff)
            && key.modifiers.alt_key ==> keycode::command_of(key) == ConversionCommand::Pass,
        key.keysym < 0x20 || 0x7f <= key.keysym < 0xa0 || 0x100 <= key.keysym < 0xff00
            || key.keysym > 0xffff ==> keycode::command_of(key) == ConversionCommand::Pass,
{
}

/// The keys of a conversion, by what they mean; those that switch the script,
/// live conversion or give up come before.
pub proof fn law_keys_of_a_conversion(e: EngineView, key: KeyEvent, answers: AnswersView)
    requires
        e.state is Conversion,
    ensures
        ({
            let step = input::key_step(e, key, answers);
            let switching = with_control(key, 0x6c) && key.modifiers.shift_key || with_control(
                key,
                0x7a,
            ) || with_control(key, 0x6a) || with_control(key, 0x6b);
            &&& with_control(key, 0x6c) && key.modifiers.shift_key ==> step == mode::live_toggled(
                e,
                answers,
            )
            &&& with_control(key, 0x7a) ==> step == conversion::cancelled(e, answers)
            &&& with_control(key, 0x6a) ==> step == mode::in_script(
                e,
                InputMode::Hiragana,
                answers,
            )
            &&& with_control(key, 0x6b) ==> step == mode::in_script(
                e,
                InputMode::Katakana,
                answers,
            )
            &&& !switching ==> match keycode::command_of(key) {
                ConversionCommand::Commit => step == Ok::<_, QuestionView>(
                    conversion::committed(e),
                ),
                ConversionCommand::Cancel => step == conversion::cancelled(e, answers),
                ConversionCommand::Navigate(how) => step == Ok::<_, QuestionView>(
                    conversion::navigated(e, how),
                ),
                ConversionCommand::Shrink => step == conversion::resized(e, false, answers),
                ConversionCommand::Expand => step == conversion::resized(e, true, answers),
                ConversionCommand::PreviousSegment => step == conversion::refocused(
                    e,
                    false,
                    answers,
                ),
                ConversionCommand::NextSegment => step == conversion::refocused(e, true, answers),
                ConversionCommand::Forget => step == conversion::forgotten(e, answers),
                ConversionCommand::CommitAndType(ch) => step == conversion::committed_and_typed(
                    e,
                    ch,
                    answers,
                ),
                ConversionCommand::Pass => step matches Ok((after, result)) && after == e
                    && !result.consumed && result.actions.len() == 0,
            }
        }),
{
}

/// The keys while composing: Space and Down start a conversion with the
/// history, Tab one without; Return commits, Escape gives up; in alphabet mode
/// Space is typed. Shift and a letter go over to alphabet mode. Other
/// characters are typed, and other keys are left to the application.
pub proof fn law_keys_of_a_composition(e: EngineView, key: KeyEvent, answers: AnswersView)
    requires
        e.state is Composing,
    ensures
        ({
            let step = input::key_step(e, key, answers);
            let held = key.modifiers.control_key || key.modifiers.alt_key;
            let letter = 0x41 <= key.keysym <= 0x5a || 0x61 <= key.keysym <= 0x7a;
            &&& with_control(key, 0x6c) && key.modifiers.shift_key ==> step == mode::live_toggled(
                e,
                answers,
            )
            &&& with_control(key, 0x6a) ==> step == mode::in_script(
                e,
                InputMode::Hiragana,
                answers,
            )
            &&& with_control(key, 0x6b) ==> step == mode::in_script(
                e,
                InputMode::Katakana,
                answers,
            )
            &&& plain_key(key, 0x20) && e.mode.current != InputMode::Alphabet ==> step
                == conversion::started(e, false, answers)
            &&& plain_key(key, 0x20) && e.mode.current == InputMode::Alphabet ==> step
                == input::typed(e, ' ', answers)
            &&& plain_key(key, 0xff54) ==> step == conversion::started(e, false, answers)
            &&& plain_key(key, 0xff09) ==> step == conversion::started(e, true, answers)
            &&& plain_key(key, 0xff0d) ==> step == input::composition_committed(e, answers)
            &&& plain_key(key, 0xff1b) ==> step == Ok::<_, QuestionView>(
                input::composition_dropped(e),
            )
            &&& !held && letter && key.modifiers.shift_key ==> step == input::typed(
                input::in_alphabet(e),
                key.keysym as char,
                answers,
            )
            &&& !held && (0x21 <= key.keysym <= 0x7e || 0xa0 <= key.keysym <= 0xff) && !(letter
                && key.modifiers.shift_key) ==> step == input::typed(
                e,
                key.keysym as char,
                answers,
            )
            &&& held && !with_control(key, 0x6a) && !with_control(key, 0x6b) && !(with_control(
                key,
                0x6c,
            ) && key.modifiers.shift_key) ==> (step matches Ok((after, result)) && after == e
                && !result.consumed && result.actions.len() == 0)
        }),
{
}

/// The keys while nothing is typed: Control and K go over to katakana, Shift
/// and a letter to alphabet mode, a character begins a text, and Space and all
/// other keys are left to the application.
pub proof fn law_keys_of_an_empty_field(e: EngineView, key: KeyEvent, answers: AnswersView)
    requires
        e.state is Empty,
    ensures
        ({
            let step = input::key_step(e, key, answers);
            let held = key.modifiers.control_key || key.modifiers.alt_key;
            let letter = 0x41 <= key.keysym <= 0x5a || 0x61 <= key.keysym <= 0x7a;
            let sign = 0x21 <= key.keysym <= 0x7e || 0xa0 <= key.keysym <= 0xff;
            &&& with_control(key, 0x6c) && key.modifiers.shift_key ==> step == mode::live_toggled(
                e,
                answers,
            )
            &&& with_control(key, 0x6b) ==> step == Ok::<_, QuestionView>(
                mode::katakana_entered(e),
            )
            &&& !held && letter && key.modifiers.shift_key ==> step == input::typed(
                input::in_alphabet(e),
                key.keysym as char,
                answers,
            )
            &&& !held && sign && !(letter && key.modifiers.shift_key) ==> step == input::typed(
                e,
                key.keysym as char,
                answers,
            )
            &&& !(with_control(key, 0x6c) && key.modifiers.shift_key) && !with_control(key, 0x6b)
                && (held || !sign) ==> (step matches Ok((after, result)) && after == e
                && !result.consumed && result.actions.len() == 0)
        }),
{
}

/// A text with another one put in at a place, which is inside it.
pub open spec fn put_in(
    before: Seq<char>,
    at: int,
    more: Seq<char>,
    after: Seq<char>,
    caret: int,
) -> bool {
    let place = if at <= before.len() {
        at
    } else {
        before.len() as int
    };
    &&& after.len() == before.len() + more.len()
    &&& caret == place + more.len()
    &&& forall|i: int| 0 <= i < place ==> #[trigger] after[i] == before[i]
    &&& forall|i: int| 0 <= i < more.len() ==> #[trigger] after[place + i] == more[i]
    &&& forall|i: int| place <= i < before.len() ==> #[trigger] after[more.len() + i] == before[i]
}

/// How a composition is shown: underlined as a whole; in katakana mode the
/// typed text in katakana, else the text converted while typing, where there
/// is one, else the typed text; pending romaji stands where it goes.
pub open spec fn shows_composition(e: EngineView, p: PreeditView) -> bool {
    &&& p.text.len() > 0 ==> p.attributes.len() == 1 && p.attributes[0].start == 0
        && p.attributes[0].end == p.text.len() && p.attributes[0].attr_type
        == AttributeType::Underline
    &&& p.text.len() == 0 ==> p.attributes.len() == 0
    &&& if e.mode.current == InputMode::Katakana {
        put_in(kana::in_katakana(e.text), e.cursor, e.romaji, p.text, p.caret)
    } else if e.live_text.len() > 0 {
        p.text == e.live_text + e.romaji && p.caret == p.text.len()
    } else {
        put_in(e.text, e.cursor, e.romaji, p.text, p.caret)
    }
}

/// The engine composes and shows what it holds.
pub open spec fn composes(e: EngineView, actions: Seq<ActionView>) -> bool {
    &&& e.state matches StateView::Composing { preedit, romaji_buffer }
    &&& romaji_buffer == e.romaji
    &&& shows_composition(e, preedit)
    &&& actions.len() > 0 && actions[0] == ActionView::UpdatePreedit(preedit)
}

proof fn lemma_put_in(before: Seq<char>, at: int, more: Seq<char>)
    requires
        0 <= at,
    ensures
        put_in(
            before,
            at,
            more,
            engine::inserted(before, at, more),
            engine::cursor_in(before, at) + more.len(),
        ),
{
}

/// A composition is shown as it is held.
pub proof fn lemma_composing_shows(e: EngineView)
    requires
        0 <= e.cursor,
    ensures
        shows_composition(e, engine::composing_preedit(e)),
{
    lemma_put_in(e.text, e.cursor, e.romaji);
    lemma_put_in(kana::in_katakana(e.text), e.cursor, e.romaji);
}

/// The latest answer on what a character makes of pending romaji.
pub open spec fn makes(answers: AnswersView, buffer: Seq<char>, ch: char, step: StepView) -> bool {
    exists|i: int|
        {
            &&& 0 <= i < answers.typed.len()
            &&& #[trigger] answers.typed[i] == step
            &&& step.buffer == buffer
            &&& step.ch == ch
            &&& forall|j: int|
                i < j < answers.typed.len() ==> !((#[trigger] answers.typed[j]).buffer == buffer
                    && answers.typed[j].ch == ch)
        }
}

/// The latest answer on the kana of romaji that is not continued.
pub open spec fn ends_as(answers: AnswersView, buffer: Seq<char>, answer: FlushedView) -> bool {
    exists|i: int|
        {
            &&& 0 <= i < answers.flushed.len()
            &&& #[trigger] answers.flushed[i] == answer
            &&& answer.buffer == buffer
            &&& forall|j: int|
                i < j < answers.flushed.len() ==> (#[trigger] answers.flushed[j]).buffer != buffer
        }
}

/// The latest answer on what a character makes of romaji is found.
pub proof fn lemma_step_for(list: Seq<StepView>, buffer: Seq<char>, ch: char)
    ensures
        match consult::step_for(list, buffer, ch) {
            Some(step) => exists|i: int|
                {
                    &&& 0 <= i < list.len()
                    &&& #[trigger] list[i] == step
                    &&& step.buffer == buffer
                    &&& step.ch == ch
                    &&& forall|j: int|
                        i < j < list.len() ==> !((#[trigger] list[j]).buffer == buffer
                            && list[j].ch == ch)
                },
            None => forall|i: int|
                0 <= i < list.len() ==> !((#[trigger] list[i]).buffer == buffer && list[i].ch
                    == ch),
        },
    decreases list.len(),
{
    if list.len() > 0 {
        let last = list.len() - 1;
        if list.last().buffer == buffer && list.last().ch == ch {
            assert(list[last] == list.last());
        } else {
            let before = list.drop_last();
            lemma_step_for(before, buffer, ch);
            match consult::step_for(before, buffer, ch) {
                Some(step) => {
                    let i = choose|i: int|
                        {
                            &&& 0 <= i < before.len()
                            &&& #[trigger] before[i] == step
                            &&& step.buffer == buffer
                            &&& step.ch == ch
                            &&& forall|j: int|
                                i < j < before.len() ==> !((#[trigger] before[j]).buffer == buffer
                                    && before[j].ch == ch)
                        };
                    assert(list[i] == step);
                    assert forall|j: int| i < j < list.len() implies !((#[trigger] list[j]).buffer
                        == buffer && list[j].ch == ch) by {
                        if j < last {
                            assert(list[j] == before[j]);
                        }
                    }
                },
                None => {
                    assert forall|i: int| 0 <= i < list.len() implies !((
                    #[trigger] list[i]).buffer == buffer && list[i].ch == ch) by {
                        if i < last {
                            assert(list[i] == before[i]);
                        }
                    }
                },
            }
        }
    }
}

proof fn lemma_flushed_for(list: Seq<FlushedView>, buffer: Seq<char>)
    ensures
        match consult::flushed_for(list, buffer) {
            Some(answer) => exists|i: int|
                {
                    &&& 0 <= i < list.len()
                    &&& #[trigger] list[i] == answer
                    &&& answer.buffer == buffer
                    &&& forall|j: int|
                        i < j < list.len() ==> (#[trigger] list[j]).buffer != buffer
                },
            None => forall|i: int| 0 <= i < list.len() ==> (#[trigger] list[i]).buffer != buffer,
        },
    decreases list.len(),
{
    if list.len() > 0 {
        let last = list.len() - 1;
        if list.last().buffer == buffer {
            assert(list[last] == list.last());
        } else {
            let before = list.drop_last();
            lemma_flushed_for(before, buffer);
            match consult::flushed_for(before, buffer) {
                Some(answer) => {
                    let i = choose|i: int|
                        {
                            &&& 0 <= i < before.len()
                            &&& #[trigger] before[i] == answer
                            &&& answer.buffer == buffer
                            &&& forall|j: int|
                                i < j < before.len() ==> (#[trigger] before[j]).buffer != buffer
                        };
                    assert(list[i] == answer);
                    assert forall|j: int| i < j < list.len() implies (#[trigger] list[j]).buffer
                        != buffer by {
                        if j < last {
                            assert(list[j] == before[j]);
                        }
                    }
                },
                None => {
                    assert forall|i: int| 0 <= i < list.len() implies (#[trigger] list[i]).buffer
                        != buffer by {
                        if i < last {
                            assert(list[i] == before[i]);
                        }
                    }
                },
            }
        }
    }
}

/// Only what was typed and the display change.
pub open spec fn only_typing_differs(a: EngineView, b: EngineView) -> bool {
    b == EngineView {
        state: b.state,
        text: b.text,
        cursor: b.cursor,
        romaji: b.romaji,
        live_text: b.live_text,
        ..a
    }
}

/// Pending romaji is turned into kana at the cursor and nothing else changes;
/// it is asked for where the answer is not known.
pub proof fn law_ending_romaji(e: EngineView, answers: AnswersView)
    requires
        0 <= e.cursor,
    ensures
        match conversion::flushed(e, answers) {
            Ok(after) => {
                &&& after == EngineView {
                    text: after.text,
                    cursor: after.cursor,
                    romaji: after.romaji,
                    ..e
                }
                &&& after.romaji.len() == 0
                &&& e.romaji.len() == 0 ==> after.text == e.text && after.cursor == e.cursor
                &&& e.romaji.len() > 0 ==> exists|answer: FlushedView|
                    #[trigger] ends_as(answers, e.romaji, answer) && put_in(
                        e.text,
                        e.cursor,
                        answer.kana,
                        after.text,
                        after.cursor,
                    )
            },
            Err(question) => {
                &&& question matches QuestionView::Flush { buffer }
                &&& buffer == e.romaji
                &&& e.romaji.len() > 0
                &&& forall|i: int|
                    0 <= i < answers.flushed.len() ==> (#[trigger] answers.flushed[i]).buffer
                        != e.romaji
            },
        },
{
    lemma_flushed_for(answers.flushed, e.romaji);
    if let Some(answer) = consult::flushed_for(answers.flushed, e.romaji) {
        lemma_put_in(e.text, e.cursor, answer.kana);
        assert(ends_as(answers, e.romaji, answer));
    }
}

/// Typing romaji puts the kana that the character completes in at the cursor,
/// keeps the rest pending, gives up the text converted while typing, and shows
/// the composition; nothing else changes. What the character makes is asked
/// for where it is not known.
pub proof fn law_typing_romaji(e: EngineView, ch: char, answers: AnswersView)
    requires
        0 <= e.cursor,
        e.mode.current != InputMode::Alphabet,
    ensures
        match input::typed(e, ch, answers) {
            Ok((after, result)) => {
                &&& only_typing_differs(e, after)
                &&& exists|step: StepView|
                    #[trigger] makes(answers, e.romaji, ch, step) && after.romaji == step.rest
                        && put_in(e.text, e.cursor, step.kana, after.text, after.cursor)
                &&& after.live_text.len() == 0
                &&& result.consumed
                &&& composes(after, result.actions)
            },
            Err(question) => {
                &&& question matches QuestionView::Type { buffer, ch: asked }
                &&& buffer == e.romaji
                &&& asked == ch
                &&& forall|i: int|
                    0 <= i < answers.typed.len() ==> !((#[trigger] answers.typed[i]).buffer
                        == e.romaji && answers.typed[i].ch == ch)
            },
        },
{
    lemma_step_for(answers.typed, e.romaji, ch);
    if let Some(step) = consult::step_for(answers.typed, e.romaji, ch) {
        lemma_put_in(e.text, e.cursor, step.kana);
        assert(makes(answers, e.romaji, ch, step));
        lemma_composing_shows((input::typed(e, ch, answers)->Ok_0).0);
    }
}

/// Typing in alphabet mode puts the character itself in at the cursor, behind
/// the kana of romaji that was pending.
pub proof fn law_typing_in_alphabet_mode(e: EngineView, ch: char, answers: AnswersView)
    requires
        0 <= e.cursor,
        e.mode.current == InputMode::Alphabet,
    ensures
        match (input::typed(e, ch, answers), conversion::flushed(e, answers)) {
            (Ok((after, result)), Ok(f)) => {
                &&& only_typing_differs(e, after)
                &&& after.romaji.len() == 0
                &&& put_in(f.text, f.cursor, seq![ch], after.text, after.cursor)
                &&& after.live_text.len() == 0
                &&& result.consumed
                &&& composes(after, result.actions)
            },
            (Err(question), Err(asked)) => question == asked,
            _ => false,
        },
{
    law_ending_romaji(e, answers);
    if let Ok(f) = conversion::flushed(e, answers) {
        lemma_put_in(f.text, f.cursor, seq![ch]);
        lemma_composing_shows((input::typed(e, ch, answers)->Ok_0).0);
    }
}

/// Alphabet mode is entered for the rest of the text: the mode before is kept
/// to go back to, and nothing else changes.
pub proof fn law_entering_alphabet_mode(e: EngineView)
    ensures
        ({
            let after = input::in_alphabet(e);
            &&& after.mode.current == InputMode::Alphabet
            &&& after.mode.saved == Some(
                if e.mode.saved is Some {
                    e.mode.saved->0
                } else {
                    e.mode.current
                },
            )
            &&& after == EngineView { mode: after.mode, ..e }
        }),
{
}

/// Nothing is typed and nothing is pending; a mode that was entered for the
/// text is left.
pub open spec fn nothing_typed(before: EngineView, after: EngineView) -> bool {
    &&& after.state == StateView::Empty
    &&& after.text.len() == 0
    &&& after.cursor == 0
    &&& after.romaji.len() == 0
    &&& after.live_text.len() == 0
    &&& after.chunks.len() == 0
    &&& match before.mode.saved {
        Some(saved) => after.mode.current == saved && after.mode.saved is None,
        None => after.mode == before.mode,
    }
    &&& after == EngineView {
        state: after.state,
        text: after.text,
        cursor: after.cursor,
        romaji: after.romaji,
        live_text: after.live_text,
        chunks: after.chunks,
        mode: after.mode,
        ..before
    }
}

/// Committing a composition gives the application the text with pending
/// romaji turned into kana: in katakana in katakana mode, else as converted
/// while typing, else as typed. Nothing is left typed, and nothing is noted
/// for the history.
pub proof fn law_committing_a_composition(e: EngineView, answers: AnswersView)
    ensures
        match (input::composition_committed(e, answers), conversion::flushed(e, answers)) {
            (Ok((after, result)), Ok(f)) => {
                let text = if e.mode.current == InputMode::Katakana {
                    kana::in_katakana(f.text)
                } else if e.live_text.len() > 0 {
                    e.live_text
                } else {
                    f.text
                };
                &&& result.consumed
                &&& result.actions.contains(ActionView::Commit(text))
                &&& forall|k: int|
                    0 <= k < result.actions.len() ==> ((
                    #[trigger] result.actions[k]) matches ActionView::Commit(t) ==> t == text)
                &&& nothing_typed(e, after)
            },
            (Err(question), Err(asked)) => question == asked,
            _ => false,
        },
{
    if let Ok((after, result)) = input::composition_committed(e, answers) {
        let f = conversion::flushed(e, answers)->Ok_0;
        assert(result.actions[1] == ActionView::Commit(input::composed_text(f)));
        assert(after == EngineView {
            state: after.state,
            text: after.text,
            cursor: after.cursor,
            romaji: after.romaji,
            live_text: after.live_text,
            chunks: after.chunks,
            mode: after.mode,
            ..e
        });
    }
}

/// Giving a composition up commits nothing, leaves nothing typed and nothing
/// on display.
pub proof fn law_giving_a_composition_up(e: EngineView)
    ensures
        ({
            let (after, result) = input::composition_dropped(e);
            &&& result.consumed
            &&& nothing_typed(e, after)
            &&& result.actions.len() > 0
            &&& result.actions[0] matches ActionView::UpdatePreedit(p)
            &&& p.text.len() == 0 && p.caret == 0 && p.attributes.len() == 0
            &&& forall|k: int|
                0 <= k < result.actions.len() ==> !(#[trigger] result.actions[k] is Commit)
        }),
{
}

/// Going over to a kana script keeps the reading, with pending romaji turned
/// into kana: to hiragana in hiragana, to katakana as it was typed and shown
/// in katakana. The mode is entered for good, what was converted is given up,
/// and the candidates go.
pub proof fn law_changing_the_script(e: EngineView, target: InputMode, answers: AnswersView)
    requires
        0 <= e.cursor,
        target == InputMode::Hiragana || target == InputMode::Katakana,
    ensures
        match (mode::in_script(e, target, answers), conversion::flushed(e, answers)) {
            (Ok((after, result)), Ok(f)) => {
                &&& target == InputMode::Hiragana ==> after.text == kana::in_hiragana(f.text)
                &&& target == InputMode::Katakana ==> after.text == f.text
                &&& after.cursor == if f.cursor <= after.text.len() {
                    f.cursor
                } else {
                    after.text.len() as int
                }
                &&& after.romaji.len() == 0
                &&& after.mode.current == target && after.mode.saved is None
                &&& after.live_text.len() == 0 && after.chunks.len() == 0
                &&& after == EngineView {
                    state: after.state,
                    text: after.text,
                    cursor: after.cursor,
                    romaji: after.romaji,
                    live_text: after.live_text,
                    chunks: after.chunks,
                    mode: after.mode,
                    ..e
                }
                &&& result.consumed
                &&& composes(after, result.actions)
                &&& result.actions.contains(ActionView::HideCandidates)
                &&& forall|k: int|
                    0 <= k < result.actions.len() ==> !(#[trigger] result.actions[k] is Commit)
            },
            (Err(question), Err(asked)) => question == asked,
            _ => false,
        },
{
    law_ending_romaji(e, answers);
    if let Ok((after, result)) = mode::in_script(e, target, answers) {
        lemma_composing_shows(after);
        assert(result.actions[1] == ActionView::HideCandidates);
    }
}

/// Entering katakana mode changes the mode for good and gives up what was
/// converted while typing; the typed text stays and is shown in katakana. In
/// katakana mode nothing happens.
pub proof fn law_entering_katakana_mode(e: EngineView)
    requires
        0 <= e.cursor,
    ensures
        ({
            let (after, result) = mode::katakana_entered(e);
            &&& result.consumed
            &&& e.mode.current == InputMode::Katakana ==> after == e && result.actions.len() == 0
            &&& e.mode.current != InputMode::Katakana ==> {
                &&& after.mode.current == InputMode::Katakana && after.mode.saved is None
                &&& after.live_text.len() == 0
                &&& after == EngineView {
                    state: after.state,
                    mode: after.mode,
                    live_text: after.live_text,
                    ..e
                }
                &&& e.text.len() == 0 && e.romaji.len() == 0 ==> after.state == e.state
                    && result.actions.len() == 0
                &&& e.text.len() > 0 || e.romaji.len() > 0 ==> composes(after, result.actions)
            }
        }),
{
    lemma_composing_shows(mode::katakana_entered(e).0);
}

proof fn lemma_spans_while_switched(
    e: EngineView,
    on: bool,
    spans: Seq<SpanView>,
    left: Seq<char>,
    answers: AnswersView,
    n: int,
)
    ensures
        model::with_spans(EngineView { live_enabled: on, ..e }, spans, left, answers, n)
            == model::with_spans(e, spans, left, answers, n),
    decreases n,
{
    if n > 0 {
        lemma_spans_while_switched(e, on, spans, left, answers, n - 1);
    }
}

proof fn lemma_same_while_switched(e: EngineView, on: bool, answers: AnswersView)
    ensures
        ({
            let switched = EngineView { live_enabled: on, ..e };
            model::auto_text(switched, e.text, engine::model_context(switched), answers)
                == model::auto_text(e, e.text, engine::model_context(e), answers)
        }),
{
    let spans = segmentation::registered_clauses(
        e.user,
        e.system,
        segmentation::clause_limit(e.config.composing_chunk_len as int),
        false,
        e.text,
        Seq::empty(),
    );
    lemma_spans_while_switched(
        e,
        on,
        spans,
        engine::model_context(e),
        answers,
        spans.len() as int,
    );
}

/// The text on the left of the field.
pub open spec fn on_the_left(e: EngineView) -> Seq<char> {
    if e.context is Some && e.context->0.left is Some {
        e.context->0.left->0
    } else {
        Seq::empty()
    }
}

/// A composition is converted behind what the model may see of the text on
/// the left.
pub open spec fn refreshed_behind(e: EngineView, answers: AnswersView, seen: Seq<char>) -> bool {
    &&& clause_laws::visible_end(on_the_left(e), e.config.max_api_context_len as int, seen)
    &&& match (mode::refreshed(e, answers), model::auto_text(e, e.text, seen, answers)) {
        (Ok((after, result)), Ok(text)) => {
            &&& after.live_text == text
            &&& after.chunks == seq![text]
            &&& after == EngineView {
                state: after.state,
                live_text: after.live_text,
                chunks: after.chunks,
                ..e
            }
            &&& result.consumed
            &&& composes(after, result.actions)
        },
        (Err(question), Err(asked)) => question == asked,
        _ => false,
    }
}

/// Refreshing a composition converts what was typed behind the text on the
/// left, as far as the model may see it, and shows that; what was typed stays.
pub proof fn law_refreshing_a_composition(e: EngineView, answers: AnswersView)
    requires
        0 <= e.cursor,
    ensures
        exists|seen: Seq<char>| #[trigger] refreshed_behind(e, answers, seen),
{
    let seen = engine::model_context(e);
    let left = on_the_left(e);
    let limit = e.config.max_api_context_len as int;
    assert(left == engine::left_of(e));
    assert(seen =~= left.skip(left.len() - seen.len()));
    assert(clause_laws::visible_end(left, limit, seen));
    if let Ok((after, result)) = mode::refreshed(e, answers) {
        lemma_composing_shows(after);
    }
    assert(refreshed_behind(e, answers, seen));
}

/// Switching conversion while typing turns it on or off and says so. While
/// composing, but for katakana mode, the text is converted at once, or goes
/// back to what was typed at once; else nothing but the switch changes.
pub proof fn law_switching_live_conversion(e: EngineView, answers: AnswersView)
    requires
        0 <= e.cursor,
    ensures
        ({
            let now = e.state is Composing && e.mode.current != InputMode::Katakana;
            match mode::live_toggled(e, answers) {
                Ok((after, result)) => {
                    &&& after.live_enabled == !e.live_enabled
                    &&& result.consumed
                    &&& result.actions.len() > 0
                    &&& result.actions.last() matches ActionView::UpdateAuxText(AuxView::Text(line))
                    &&& line == if after.live_enabled {
                        "ライブ変換: ON"@
                    } else {
                        "ライブ変換: OFF"@
                    }
                    &&& now && after.live_enabled ==> {
                        &&& mode::refreshed(e, answers) is Ok
                        &&& after == EngineView {
                            live_enabled: true,
                            ..(mode::refreshed(e, answers)->Ok_0).0
                        }
                        &&& composes(after, result.actions)
                    }
                    &&& now && !after.live_enabled && e.live_text.len() > 0 ==> {
                        &&& after.live_text.len() == 0
                        &&& after == EngineView {
                            state: after.state,
                            live_enabled: false,
                            live_text: after.live_text,
                            ..e
                        }
                        &&& composes(after, result.actions)
                    }
                    &&& !now || !after.live_enabled && e.live_text.len() == 0 ==> after
                        == EngineView { live_enabled: after.live_enabled, ..e }
                        && result.actions.len() == 1
                },
                Err(question) => {
                    &&& now && !e.live_enabled
                    &&& mode::refreshed(e, answers) matches Err(asked)
                    &&& asked == question
                },
            }
        }),
{
    let on = !e.live_enabled;
    let switched = EngineView { live_enabled: on, ..e };
    assert(engine::model_context(switched) == engine::model_context(e));
    if let Ok((after, result)) = mode::live_toggled(e, answers) {
        lemma_composing_shows(after);
        lemma_same_while_switched(e, on, answers);
    } else {
        lemma_same_while_switched(e, on, answers);
    }
}

/// A step that has to know something first changes nothing and asks for it;
/// any other leaves the engine as the step says and does what it says.
pub proof fn law_questions_change_nothing(
    expected: Result<(EngineView, ResultView), QuestionView>,
    before: EngineView,
    after: EngineView,
    r: Result<EngineResult, Question>,
)
    requires
        engine::answered(expected, before, after, r),
    ensures
        r matches Err(question) ==> after == before && (expected matches Err(asked)
            && question.deep_view() == asked),
        r matches Ok(result) ==> (expected matches Ok((next, owed)) && after == next
            && result.deep_view() == owed),
{
}

/// The mode and the model are told in a line: a sign for the mode and, in
/// brackets, the name of the model, or that it is being loaded or not known.
pub proof fn law_the_line_of_a_mode(e: EngineView)
    ensures
        ({
            let sign = match e.mode.current {
                InputMode::Hiragana => "あ"@,
                InputMode::Katakana => "ア"@,
                InputMode::Alphabet => "A"@,
                InputMode::Emoji => ":"@,
            };
            let name = if e.loading {
                "initializing"@
            } else if e.kanji is Some {
                e.kanji->0
            } else {
                "unknown"@
            };
            mode::mode_line(e) == sign + " Karukan ("@ + name + ")"@
        }),
{
}

} // verus!
