//! The engine at work: keys, clauses, candidates and learning.

use karukan_im::action::{AuxText, EngineAction, EngineResult};
use karukan_im::advice::{LearnedEntry, ReadingAdvice, Rewrite};
use karukan_im::candidate::{AnnotatedCandidate, CandidateList, CandidateSource};
use karukan_im::consult::{Answers, Converted, Flushed, Forgotten, Question, RomajiStep};
use karukan_im::dictionary::{Dictionary, DictionaryCandidate, DictionaryEntry};
use karukan_im::engine::{InputMethodEngine, InputMode, ModelHandle};
use karukan_im::keycode::{KeyEvent, KeyModifiers, Keysym};
use karukan_im::model::{ConversionStrategy, ModelReply};
use karukan_im::preedit::{AttributeType, Preedit};
use karukan_im::settings::{EngineConfig, LearningConfig};
use karukan_im::sources::{
    build_conversion_candidates, lookup_learning_candidates, lookup_rewriter_variants,
};
use karukan_im::state::{ConversionSegment, InputState};

/// What stands around the engine: a history, a model and variants.
struct Services {
    learned: Vec<(String, String)>,
    model: Vec<(String, Vec<String>)>,
    rewrites: Vec<(String, String)>,
    contexts: Vec<String>,
    asked: usize,
}

fn services() -> Services {
    Services {
        learned: vec![],
        model: vec![],
        rewrites: vec![],
        contexts: vec![],
        asked: 0,
    }
}

fn learned_services(reading: &str, surface: &str) -> Services {
    let mut services = services();
    services.learned.push((reading.to_string(), surface.to_string()));
    services
}

fn learning_engine() -> InputMethodEngine {
    let mut engine = InputMethodEngine::new();
    engine.init_learning_cache(true, LearningConfig { max_entries: 100, max_surface_chars: 100 });
    engine
}

fn kana_of(romaji: &str) -> Option<&'static str> {
    match romaji {
        "a" => Some("あ"),
        "i" => Some("い"),
        "u" => Some("う"),
        "e" => Some("え"),
        "o" => Some("お"),
        "ka" => Some("か"),
        "ki" => Some("き"),
        _ => None,
    }
}

impl Services {
    fn advice(&self, reading: &str) -> ReadingAdvice {
        let learned_exact = self
            .learned
            .iter()
            .filter(|(r, _)| r == reading)
            .map(|(_, s)| s.clone())
            .collect();
        let learned_prefix = self
            .learned
            .iter()
            .filter(|(r, _)| r.starts_with(reading))
            .map(|(r, s)| LearnedEntry { reading: r.clone(), surface: s.clone() })
            .collect();
        let model = self
            .model
            .iter()
            .filter(|(r, _)| r == reading)
            .flat_map(|(_, texts)| texts.clone())
            .collect();
        let rewrites = self
            .rewrites
            .iter()
            .filter(|(r, _)| r == reading)
            .map(|(_, s)| Rewrite { text: s.clone(), description: None })
            .collect();
        ReadingAdvice {
            reading: reading.to_string(),
            model,
            learned_exact,
            learned_prefix,
            rewrites,
            reading_symbol: None,
            katakana_symbol: None,
        }
    }

    fn answer(&mut self, question: Question, answers: &mut Answers) {
        self.asked += 1;
        match question {
            Question::Reading { reading, context, .. } => {
                self.contexts.push(context);
                answers.advice.push(self.advice(&reading));
            }
            Question::Convert { reading, context } => {
                self.contexts.push(context.clone());
                let text = self.advice(&reading).model.first().cloned();
                answers.converted.push(Converted { reading, context, text });
            }
            Question::Forget { reading, surface } => {
                let before = self.learned.len();
                self.learned.retain(|(r, s)| !(r.starts_with(&reading) && *s == surface));
                let removed = self.learned.len() < before;
                answers.forgotten.push(Forgotten { reading, surface, removed });
            }
            Question::Flush { buffer } => {
                let kana = if buffer == "n" { "ん".to_string() } else { buffer.clone() };
                answers.flushed.push(Flushed { buffer, kana });
            }
            Question::Type { buffer, ch } => {
                let all = format!("{buffer}{ch}");
                let (kana, rest) = match kana_of(&all) {
                    Some(kana) => (kana.to_string(), String::new()),
                    None if !ch.is_ascii() => (all, String::new()),
                    None => (String::new(), all),
                };
                answers.typed.push(RomajiStep { buffer, ch, kana, rest });
            }
        }
    }

    fn key(&mut self, engine: &mut InputMethodEngine, key: &KeyEvent) -> EngineResult {
        let mut answers = Answers::new();
        loop {
            match engine.process_key(key, &answers) {
                Ok(result) => return result,
                Err(question) => self.answer(question, &mut answers),
            }
        }
    }

    fn start(&mut self, engine: &mut InputMethodEngine, skip_learning: bool) -> EngineResult {
        let mut answers = Answers::new();
        loop {
            match engine.start_conversion(skip_learning, &answers) {
                Ok(result) => return result,
                Err(question) => self.answer(question, &mut answers),
            }
        }
    }
}

fn press(ch: char) -> KeyEvent {
    KeyEvent::press(ch as u32)
}

fn press_key(keysym: u32) -> KeyEvent {
    KeyEvent::press(keysym)
}

fn press_ctrl(keysym: u32) -> KeyEvent {
    KeyEvent {
        keysym,
        modifiers: KeyModifiers { shift_key: false, control_key: true, alt_key: false },
    }
}

fn press_shift_key(keysym: u32) -> KeyEvent {
    KeyEvent {
        keysym,
        modifiers: KeyModifiers { shift_key: true, control_key: false, alt_key: false },
    }
}

fn dict_with_scored_entries(entries: &[(&str, &str, i32)]) -> Dictionary {
    Dictionary::from_entries(
        entries
            .iter()
            .map(|(reading, surface, score)| DictionaryEntry {
                reading: reading.to_string(),
                candidates: vec![DictionaryCandidate {
                    surface: surface.to_string(),
                    score: *score,
                }],
            })
            .collect(),
    )
}

fn user_dict_with_entries(entries: &[(&str, &str)]) -> Dictionary {
    dict_with_scored_entries(
        &entries
            .iter()
            .map(|(reading, surface)| (*reading, *surface, 1))
            .collect::<Vec<_>>(),
    )
}

fn user_dict_with(reading: &str, surface: &str) -> Dictionary {
    user_dict_with_entries(&[(reading, surface)])
}

fn visible_preedit_text(engine: &InputMethodEngine) -> String {
    engine.preedit().unwrap().text().replace('\u{200B}', "")
}

fn segments_of(engine: &InputMethodEngine) -> (&Vec<ConversionSegment>, usize) {
    match engine.state() {
        InputState::Conversion { segments, active_segment, .. } => (segments, *active_segment),
        _ => panic!("expected conversion state"),
    }
}

fn readings(engine: &InputMethodEngine) -> Vec<&str> {
    segments_of(engine).0.iter().map(|segment| segment.reading.as_str()).collect()
}

fn highlights(engine: &InputMethodEngine) -> Vec<(usize, usize)> {
    engine
        .preedit()
        .unwrap()
        .attributes()
        .iter()
        .filter(|a| a.attr_type == AttributeType::Highlight)
        .map(|a| (a.start, a.end))
        .collect()
}

fn navigate_active_candidate_to(
    services: &mut Services,
    engine: &mut InputMethodEngine,
    expected: &str,
) {
    let candidates = engine.candidates().unwrap();
    let cursor = candidates.cursor();
    let target = candidates
        .candidates()
        .iter()
        .position(|candidate| candidate.text == expected)
        .unwrap_or_else(|| panic!("candidate {expected:?} not found"));
    let len = candidates.len();
    for _ in 0..(target + len - cursor) % len {
        services.key(engine, &press_key(Keysym::SPACE));
    }
}

fn show_candidate_texts(result: &EngineResult) -> Vec<String> {
    result
        .actions
        .iter()
        .find_map(|a| match a {
            EngineAction::ShowCandidates(list) => {
                Some(list.candidates().iter().map(|c| c.text.clone()).collect::<Vec<_>>())
            }
            _ => None,
        })
        .unwrap_or_default()
}

fn candidate_texts(engine: &InputMethodEngine) -> Vec<String> {
    engine.candidates().unwrap().candidates().iter().map(|c| c.text.clone()).collect()
}

fn commits(result: &EngineResult) -> Vec<String> {
    result
        .actions
        .iter()
        .filter_map(|a| match a {
            EngineAction::Commit(text) => Some(text.clone()),
            _ => None,
        })
        .collect()
}

fn texts(list: Vec<AnnotatedCandidate>) -> Vec<String> {
    list.into_iter().map(|c| c.text).collect()
}

#[test]
fn test_conversion_char_commits_and_continues() {
    let mut engine = InputMethodEngine::new();
    let mut services = services();

    services.key(&mut engine, &press('a'));
    services.key(&mut engine, &press('i'));
    services.key(&mut engine, &press_key(Keysym::SPACE));
    assert!(matches!(engine.state(), InputState::Conversion { .. }));

    let result = services.key(&mut engine, &press('k'));
    assert!(result.consumed);

    let has_commit = result.actions.iter().any(|a| matches!(a, EngineAction::Commit(_)));
    assert!(has_commit, "Should have a commit action");

    assert!(matches!(engine.state(), InputState::Composing { .. }));
    assert_eq!(engine.preedit().unwrap().text(), "k");
}

#[test]
fn test_conversion_char_commits_and_continues_romaji() {
    let mut engine = InputMethodEngine::new();
    let mut services = services();

    services.key(&mut engine, &press('a'));
    services.key(&mut engine, &press_key(Keysym::SPACE));
    assert!(matches!(engine.state(), InputState::Conversion { .. }));

    services.key(&mut engine, &press('k'));
    assert!(matches!(engine.state(), InputState::Composing { .. }));
    assert_eq!(engine.preedit().unwrap().text(), "k");

    services.key(&mut engine, &press('a'));
    assert_eq!(engine.preedit().unwrap().text(), "か");
}

#[test]
fn test_conversion_can_select_candidates_per_segment() {
    let mut engine = InputMethodEngine::with_config(EngineConfig {
        composing_chunk_len: 2,
        ..EngineConfig::default()
    });
    let mut services = services();

    for ch in ['a', 'i', 'u', 'e'] {
        services.key(&mut engine, &press(ch));
    }
    services.key(&mut engine, &press_key(Keysym::SPACE));

    let (segments, active_segment) = segments_of(&engine);
    assert_eq!(active_segment, 0);
    assert!(!segments[0].needs_expansion);
    assert!(segments[1..].iter().all(|segment| segment.needs_expansion));
    assert_eq!(segments.len(), 2);
    assert_eq!(segments[0].reading, "あい");
    assert_eq!(segments[1].reading, "うえ");
    let initial_second_surface = segments[1]
        .candidates
        .selected_text()
        .unwrap_or(&segments[1].reading)
        .to_string();

    navigate_active_candidate_to(&mut services, &mut engine, "アイ");
    assert_eq!(visible_preedit_text(&engine), format!("アイ{initial_second_surface}"));
    assert_eq!(highlights(&engine), vec![(0, 2)]);

    services.key(&mut engine, &press_key(Keysym::RIGHT));
    let (segments, active_segment) = segments_of(&engine);
    assert_eq!(active_segment, 1);
    assert!(!segments[1].needs_expansion);
    assert_eq!(segments.len(), 2);
    assert_eq!(segments[0].reading, "あい");
    assert_eq!(segments[1].reading, "うえ");
    assert_eq!(visible_preedit_text(&engine), format!("アイ{initial_second_surface}"));
    assert_eq!(
        highlights(&engine),
        vec![(3, 3 + initial_second_surface.chars().count())]
    );

    navigate_active_candidate_to(&mut services, &mut engine, "ウエ");
    assert_eq!(visible_preedit_text(&engine), "アイウエ");

    let result = services.key(&mut engine, &press_key(Keysym::RETURN));
    assert!(result
        .actions
        .iter()
        .any(|a| { matches!(a, EngineAction::Commit(text) if text == "アイウエ") }));
}

#[test]
fn test_explicit_conversion_splits_short_sentence_at_particles() {
    let mut engine = InputMethodEngine::new();
    let mut services = services();
    engine.dicts.system = Some(user_dict_with_entries(&[
        ("きょう", "今日"),
        ("いい", "良い"),
        ("てんき", "天気"),
    ]));
    engine.input_buf.insert("きょうはいいてんき");

    services.start(&mut engine, false);

    assert_eq!(segments_of(&engine).1, 0);
    assert_eq!(readings(&engine), vec!["きょう", "は", "いい", "てんき"]);
    assert_eq!(
        highlights(&engine),
        vec![(0, 2)],
        "conversion must begin with the first clause focused"
    );

    services.key(&mut engine, &press_key(Keysym::RIGHT));

    assert_eq!(segments_of(&engine).1, 1);
    assert_eq!(readings(&engine), vec!["きょう", "は", "いい", "てんき"]);
    assert_eq!(
        highlights(&engine),
        vec![(3, 4)],
        "the particle highlight must start after 今日, not after a proportional surface split"
    );
}

#[test]
fn test_segment_navigation_aligns_word_boundaries_to_converted_surface() {
    let mut engine = InputMethodEngine::new();
    let mut services = services();
    engine.dicts.system = Some(dict_with_scored_entries(&[
        ("きょう", "今日", 10),
        ("きょうは", "教派", 1),
        ("きょうはい", "向背", 1),
        ("は", "は", 10),
        ("はい", "はい", 20),
        ("いい", "いい", 10),
        ("てんき", "天気", 10),
    ]));
    engine.input_buf.insert("きょうはいいてんき");
    engine.live.text = "今日はいい天気".to_string();

    services.start(&mut engine, false);
    services.key(&mut engine, &press_key(Keysym::RIGHT));

    assert_eq!(segments_of(&engine).1, 1);
    assert_eq!(readings(&engine), vec!["きょう", "は", "いい", "てんき"]);
    assert_eq!(visible_preedit_text(&engine), "今日はいい天気");
    assert_eq!(
        highlights(&engine),
        vec![(3, 4)],
        "the active particle must highlight only は"
    );
}

#[test]
fn test_explicit_conversion_keeps_particles_separate_from_nouns() {
    let mut engine = InputMethodEngine::new();
    let mut services = services();
    engine.dicts.system = Some(user_dict_with_entries(&[
        ("だいがく", "大学"),
        ("じゅぎょう", "授業"),
        ("うける", "受ける"),
    ]));
    engine.input_buf.insert("だいがくのじゅぎょうをうける");

    services.start(&mut engine, false);
    services.key(&mut engine, &press_key(Keysym::RIGHT));

    assert_eq!(
        readings(&engine),
        vec!["だいがく", "の", "じゅぎょう", "を", "うける"]
    );
}

#[test]
fn test_explicit_conversion_does_not_split_inside_dictionary_words() {
    let mut engine = InputMethodEngine::new();
    let mut services = services();
    engine.dicts.system = Some(user_dict_with_entries(&[
        ("どうさ", "動作"),
        ("かくにん", "確認"),
        ("かねて", "兼ねて"),
        ("ためし", "試し"),
        ("にゅうりょく", "入力"),
    ]));
    engine
        .input_buf
        .insert("どうさかくにんをかねてためしににゅうりょくしてみましょう");

    services.start(&mut engine, false);
    services.key(&mut engine, &press_key(Keysym::RIGHT));

    assert_eq!(
        readings(&engine),
        vec![
            "どうさ",
            "かくにん",
            "を",
            "かねて",
            "ためし",
            "に",
            "にゅうりょく",
            "してみましょう"
        ]
    );
}

#[test]
fn test_segment_navigation_preserves_user_dictionary_span_without_duplication() {
    let mut engine = InputMethodEngine::new();
    let mut services = services();
    engine.dicts.user = Some(user_dict_with("あい", "愛"));
    engine.input_buf.insert("あいうえ");

    engine.live.text = "愛うえ".to_string();
    services.start(&mut engine, false);
    services.key(&mut engine, &press_key(Keysym::RIGHT));

    let (segments, active_segment) = segments_of(&engine);
    assert_eq!(active_segment, 1);
    assert_eq!(readings(&engine), vec!["あい", "うえ"]);
    assert_eq!(
        segments[1].candidates.selected_text(),
        Some("うえ"),
        "the free span should keep the displayed surface while entering segment navigation"
    );
    assert_eq!(visible_preedit_text(&engine), "愛うえ");
}

#[test]
fn commit_and_continue_advances_surrounding_context() {
    let mut engine = InputMethodEngine::new();
    let mut services = services();
    engine.config.max_api_context_len = 20;
    engine.set_surrounding_context("前文", "右側");
    engine.input_buf.insert("あい");

    let candidates =
        CandidateList::from_strings_with_reading(vec!["愛".to_string()], "あい");
    let segments = vec![ConversionSegment {
        reading: "あい".to_string(),
        candidates: candidates.clone(),
        needs_expansion: false,
    }];
    engine.state = InputState::Conversion {
        preedit: Preedit::with_text("愛"),
        candidates,
        segments,
        active_segment: 0,
        skip_learning: false,
    };

    let result = services.key(&mut engine, &press('k'));

    assert!(result
        .actions
        .iter()
        .any(|action| matches!(action, EngineAction::Commit(text) if text == "愛")));
    let context = engine.surrounding_context.as_ref().unwrap();
    assert_eq!(context.left.as_deref(), Some("前文愛"));
    assert_eq!(context.right.as_deref(), Some("右側"));
}

#[test]
fn test_segment_navigation_preserves_existing_prediction_surface() {
    let mut engine = InputMethodEngine::new();
    let mut services = services();
    engine.input_buf.insert("きょうはいいてんき");
    engine.live.text = "今日はいい天気".to_string();

    services.start(&mut engine, false);
    services.key(&mut engine, &press_key(Keysym::RIGHT));

    let (segments, active_segment) = segments_of(&engine);
    assert_eq!(active_segment, 1);
    assert!(segments.len() > 1);
    assert_eq!(visible_preedit_text(&engine), "今日はいい天気");

    services.key(&mut engine, &press_key(Keysym::RIGHT));
    assert_eq!(visible_preedit_text(&engine), "今日はいい天気");
}

#[test]
fn leaving_a_conversion_types_the_reading_anew() {
    let mut engine = InputMethodEngine::new();
    let mut services = services();
    engine.input_buf.insert("あい");
    services.start(&mut engine, false);
    services.key(&mut engine, &press_key(Keysym::ESCAPE));
    assert!(matches!(engine.state(), InputState::Composing { .. }));
    assert_eq!(engine.input_buf.text, "あい");
    assert_eq!(engine.converters.romaji.buffer, "");
    assert_eq!(engine.preedit().unwrap().text(), "あい");

    let mut engine = InputMethodEngine::new();
    engine.input_buf.insert("k");
    services.start(&mut engine, false);
    services.key(&mut engine, &press_ctrl(Keysym::KEY_Z));
    assert_eq!(engine.input_buf.text, "k");
    assert_eq!(engine.converters.romaji.buffer, "k");
    assert_eq!(engine.preedit().unwrap().text(), "kk");

    let mut engine = InputMethodEngine::new();
    engine.input_buf.insert("あ");
    services.start(&mut engine, false);
    let asked = engine.cancel_conversion(&Answers::new());
    assert!(matches!(asked, Err(Question::Type { buffer, ch: 'あ' }) if buffer.is_empty()));
    assert!(matches!(engine.state(), InputState::Conversion { .. }));
}

#[test]
fn a_run_of_words_on_display_divides_over_the_clauses() {
    let mut engine = InputMethodEngine::new();
    let mut services = services();
    engine.dicts.system = Some(user_dict_with_entries(&[
        ("きょう", "今日"),
        ("は", "は"),
        ("いい", "良い"),
        ("てんき", "天気"),
    ]));
    engine.input_buf.insert("きょうはいいてんき");
    engine.live.text = "今日は良い天気".to_string();
    services.start(&mut engine, false);
    let (segments, _) = segments_of(&engine);
    let shown: Vec<&str> =
        segments.iter().map(|s| s.candidates.selected().unwrap().text.as_str()).collect();
    assert_eq!(shown, vec!["今日", "は", "良い", "天気"]);
    assert_eq!(visible_preedit_text(&engine), "今日は良い天気");
}

#[test]
fn a_clause_out_of_focus_keeps_the_candidate_of_its_list() {
    let mut engine = learning_engine();
    let mut services = learned_services("てんきよ", "天気");
    engine.dicts.system = Some(user_dict_with_entries(&[
        ("きょう", "今日"),
        ("いい", "良い"),
        ("てんき", "天気"),
    ]));
    engine.input_buf.insert("きょうはいいてんき");
    engine.live.text = "今日は良い天気".to_string();

    services.start(&mut engine, false);

    let (segments, active_segment) = segments_of(&engine);
    assert_eq!(active_segment, 0);
    let last = segments.last().unwrap();
    assert_eq!(last.reading, "てんき");
    assert!(last.needs_expansion);
    let kept = last.candidates.selected().unwrap();
    assert_eq!(kept.text, "天気");
    assert_eq!(kept.source, Some(CandidateSource::Learning));
    assert_eq!(kept.reading.as_deref(), Some("てんきよ"));
    let before = &segments[segments.len() - 2];
    assert_eq!(before.reading, "いい");
    assert_eq!(before.candidates.selected().unwrap().source, Some(CandidateSource::Dictionary));
}

#[test]
fn moving_the_focus_back_changes_no_list() {
    let mut engine = InputMethodEngine::new();
    let mut services = services();
    engine.dicts.system = Some(user_dict_with_entries(&[
        ("きょう", "今日"),
        ("いい", "良い"),
        ("てんき", "天気"),
    ]));
    engine.input_buf.insert("きょうはいいてんき");
    services.start(&mut engine, false);
    services.key(&mut engine, &press_key(Keysym::RIGHT));
    let texts = |engine: &InputMethodEngine| -> Vec<Vec<String>> {
        segments_of(engine)
            .0
            .iter()
            .map(|s| s.candidates.candidates().iter().map(|c| c.text.clone()).collect())
            .collect()
    };
    let shown = texts(&engine);
    services.key(&mut engine, &press_key(Keysym::LEFT));
    assert_eq!(segments_of(&engine).1, 0);
    assert_eq!(texts(&engine), shown);
}

#[test]
fn mac_candidate_shortcuts_move_forward_and_backward() {
    let mut engine = InputMethodEngine::new();
    let mut services = services();
    engine.input_buf.insert("あい");
    services.start(&mut engine, false);

    let initial = engine.candidates().unwrap().cursor();
    services.key(&mut engine, &press_ctrl(Keysym::KEY_N));
    assert_ne!(engine.candidates().unwrap().cursor(), initial);

    services.key(&mut engine, &press_ctrl(Keysym::KEY_P));
    assert_eq!(engine.candidates().unwrap().cursor(), initial);

    services.key(&mut engine, &press_key(Keysym::SPACE));
    assert_ne!(engine.candidates().unwrap().cursor(), initial);
    services.key(&mut engine, &press_shift_key(Keysym::SPACE));
    assert_eq!(engine.candidates().unwrap().cursor(), initial);
}

#[test]
fn mac_clause_shortcuts_select_and_resize_without_losing_reading() {
    let mut engine = InputMethodEngine::with_config(EngineConfig {
        composing_chunk_len: 2,
        ..EngineConfig::default()
    });
    let mut services = services();
    engine.input_buf.insert("あいうえ");
    services.start(&mut engine, false);

    services.key(&mut engine, &press_ctrl(Keysym::KEY_B));
    services.key(&mut engine, &press_ctrl(Keysym::KEY_F));
    assert_eq!(segments_of(&engine).1, 0);
    assert_eq!(readings(&engine), vec!["あい", "うえ"]);

    services.key(&mut engine, &press_shift_key(Keysym::RIGHT));
    assert_eq!(readings(&engine), vec!["あいう", "え"]);
    assert_eq!(readings(&engine).concat(), "あいうえ");

    services.key(&mut engine, &press_ctrl(Keysym::KEY_I));
    assert_eq!(readings(&engine), vec!["あい", "うえ"]);
}

#[test]
fn mac_control_z_returns_conversion_to_reading() {
    let mut engine = InputMethodEngine::new();
    let mut services = services();
    engine.input_buf.insert("あいう");
    services.start(&mut engine, false);
    assert!(matches!(engine.state(), InputState::Conversion { .. }));

    let result = services.key(&mut engine, &press_ctrl(Keysym::KEY_Z));
    assert!(result.consumed);
    assert!(matches!(engine.state(), InputState::Composing { .. }));
    assert_eq!(engine.preedit().unwrap().text(), "あいう");
    assert!(result
        .actions
        .iter()
        .any(|action| matches!(action, EngineAction::HideCandidates)));
}

#[test]
fn shrinking_whole_conversion_creates_a_following_clause() {
    let mut engine = InputMethodEngine::new();
    let mut services = services();
    engine.input_buf.insert("あいう");
    services.start(&mut engine, false);

    services.key(&mut engine, &press_shift_key(Keysym::LEFT));
    assert_eq!(readings(&engine), vec!["あい", "う"]);

    services.key(&mut engine, &press_ctrl(Keysym::KEY_W));
    let (segments, _) = segments_of(&engine);
    assert_eq!(segments.len(), 1);
    assert_eq!(segments[0].reading, "あいう");
}

#[test]
fn build_candidates_includes_learning_when_not_skipped() {
    let services = learned_services("あい", "藍");
    let list = build_conversion_candidates(
        &None,
        &None,
        true,
        false,
        "あい",
        &services.advice("あい"),
        false,
    );
    let texts = texts(list);
    assert!(
        texts.contains(&"藍".to_string()),
        "Space path (skip_learning=false) should surface learned `藍`, got {:?}",
        texts,
    );
}

#[test]
fn build_candidates_omits_learning_when_skipped() {
    let services = learned_services("あい", "藍");
    let list = build_conversion_candidates(
        &None,
        &None,
        true,
        false,
        "あい",
        &services.advice("あい"),
        true,
    );
    let texts = texts(list);
    assert!(
        !texts.contains(&"藍".to_string()),
        "Tab path (skip_learning=true) must drop learned `藍`, got {:?}",
        texts,
    );
}

#[test]
fn tab_key_skips_learning_in_composing() {
    let mut engine = learning_engine();
    let mut services = learned_services("あい", "藍");

    services.key(&mut engine, &press('a'));
    services.key(&mut engine, &press('i'));
    assert_eq!(engine.input_buf.text, "あい");

    let result = services.key(&mut engine, &press_key(Keysym::TAB));
    assert!(result.consumed);
    assert!(matches!(engine.state(), InputState::Conversion { .. }));

    let texts = candidate_texts(&engine);
    assert!(
        !texts.contains(&"藍".to_string()),
        "Tab must skip the learned `藍` candidate, got {:?}",
        texts,
    );
}

#[test]
fn space_key_keeps_learning_in_composing() {
    let mut engine = learning_engine();
    let mut services = learned_services("あい", "藍");

    services.key(&mut engine, &press('a'));
    services.key(&mut engine, &press('i'));

    let result = services.key(&mut engine, &press_key(Keysym::SPACE));
    assert!(result.consumed);
    assert!(matches!(engine.state(), InputState::Conversion { .. }));

    let texts = candidate_texts(&engine);
    assert!(
        texts.contains(&"藍".to_string()),
        "Space must surface learned `藍`, got {:?}",
        texts,
    );
}

#[test]
fn composing_does_not_show_candidates_before_space() {
    let mut engine = learning_engine();
    let mut services = learned_services("あい", "藍");
    engine.dicts.user = Some(user_dict_with("あい", "愛"));

    services.key(&mut engine, &press('a'));
    let result = services.key(&mut engine, &press('i'));

    assert!(
        show_candidate_texts(&result).is_empty(),
        "composing should not show conversion candidates before Space"
    );
}

#[test]
fn space_conversion_prioritizes_user_dictionary_over_learning() {
    let mut engine = learning_engine();
    let mut services = learned_services("あい", "藍");
    engine.dicts.user = Some(user_dict_with("あい", "愛"));

    services.key(&mut engine, &press('a'));
    services.key(&mut engine, &press('i'));
    let result = services.key(&mut engine, &press_key(Keysym::SPACE));

    let texts = show_candidate_texts(&result);
    assert_eq!(
        texts.first().map(String::as_str),
        Some("愛"),
        "user dictionary candidate should be first after Space, got {:?}",
        texts
    );
    assert!(
        texts.iter().any(|t| t == "藍"),
        "learning candidate should remain after user dictionary, got {:?}",
        texts
    );
}

#[test]
fn space_conversion_keeps_short_learning_prefix_predictions() {
    let mut engine = learning_engine();
    let mut services = learned_services("あいしてる", "愛してる");

    services.key(&mut engine, &press('a'));
    services.key(&mut engine, &press('i'));
    let result = services.key(&mut engine, &press_key(Keysym::SPACE));
    let texts = show_candidate_texts(&result);

    assert!(
        texts.iter().any(|t| t == "愛してる"),
        "short learned prefix prediction should remain, got {:?}",
        texts
    );
}

#[test]
fn space_conversion_omits_long_learning_prefix_predictions() {
    let mut engine = learning_engine();
    let mut services = learned_services(
        "きょうはとてもながいぶんしょうをへんかんしました",
        "今日はとても長い文章を変換しました",
    );

    services.key(&mut engine, &press('k'));
    services.key(&mut engine, &press('y'));
    let result = services.key(&mut engine, &press_key(Keysym::SPACE));
    let texts = show_candidate_texts(&result);

    assert!(
        !texts.iter().any(|t| t == "今日はとても長い文章を変換しました"),
        "long learned sentence should not appear in prefix auto-suggest, got {:?}",
        texts
    );
}

#[test]
fn long_predictions_are_left_out_by_length() {
    let mut engine = learning_engine();
    let mut services = learned_services(
        "きょうはとてもながいぶんしょうをへんかんしました",
        "今日はとても長い文章を変換しました",
    );
    engine.input_buf.insert("き");
    services.start(&mut engine, false);
    assert_eq!(candidate_texts(&engine), vec!["き", "キ"]);
}

#[test]
fn a_question_leaves_the_engine_as_it_was() {
    let mut engine = InputMethodEngine::new();
    engine.input_buf.insert("あい");
    engine.live.text = "愛".to_string();
    engine.converters.romaji.buffer = "n".to_string();

    let first = engine.start_conversion(false, &Answers::new());
    assert!(matches!(first, Err(Question::Flush { buffer }) if buffer == "n"));

    let mut answers = Answers::new();
    answers.flushed.push(Flushed { buffer: "n".to_string(), kana: "ん".to_string() });
    let second = engine.start_conversion(false, &answers);
    assert!(
        matches!(second, Err(Question::Reading { reading, load_model, .. })
            if reading == "あいん" && load_model)
    );
    assert_eq!(engine.input_buf.text, "あい");
    assert_eq!(engine.input_buf.cursor_pos, 2);
    assert_eq!(engine.live.text, "愛");
    assert_eq!(engine.converters.romaji.buffer, "n");
    assert!(matches!(engine.state(), InputState::Empty));
}

#[test]
fn nothing_is_asked_twice() {
    let mut engine = InputMethodEngine::with_config(EngineConfig {
        composing_chunk_len: 2,
        ..EngineConfig::default()
    });
    let mut services = services();
    engine.input_buf.insert("あいうえ");
    services.start(&mut engine, false);
    // The whole reading, then each of its two clauses.
    assert_eq!(services.asked, 3);
}

#[test]
fn the_model_sees_the_end_of_the_context() {
    let mut engine = InputMethodEngine::new();
    let mut services = services();
    engine.config.max_api_context_len = 3;
    engine.set_surrounding_context("あいうえお", "");
    engine.input_buf.insert("か");
    services.start(&mut engine, false);
    assert_eq!(services.contexts, vec!["うえお".to_string()]);
}

#[test]
fn candidates_come_in_order_without_duplicates() {
    let mut engine = learning_engine();
    let mut services = learned_services("かな", "仮名");
    services.model.push((
        "かな".to_string(),
        vec!["金".to_string(), "加奈".to_string(), "愛".to_string()],
    ));
    services.rewrites.push(("かな".to_string(), "ｶﾅ".to_string()));
    services.rewrites.push(("かな".to_string(), "カナ".to_string()));
    engine.dicts.user = Some(user_dict_with("かな", "愛"));
    engine.dicts.system = Some(Dictionary::from_entries(vec![DictionaryEntry {
        reading: "かな".to_string(),
        candidates: vec![
            DictionaryCandidate { surface: "哉".to_string(), score: 20 },
            DictionaryCandidate { surface: "金".to_string(), score: 1 },
            DictionaryCandidate { surface: "家内".to_string(), score: 10 },
        ],
    }]));
    engine.input_buf.insert("かな");
    services.start(&mut engine, false);
    assert_eq!(
        candidate_texts(&engine),
        vec!["愛", "仮名", "金", "加奈", "家内", "哉", "かな", "カナ", "ｶﾅ"]
    );
    let list = engine.candidates().unwrap().candidates();
    let sources: Vec<Option<CandidateSource>> = list.iter().map(|c| c.source).collect();
    assert_eq!(
        sources,
        vec![
            Some(CandidateSource::UserDictionary),
            Some(CandidateSource::Learning),
            Some(CandidateSource::Model),
            Some(CandidateSource::Model),
            Some(CandidateSource::Dictionary),
            Some(CandidateSource::Dictionary),
            Some(CandidateSource::Fallback),
            Some(CandidateSource::Fallback),
            Some(CandidateSource::Rewriter),
        ]
    );
    assert_eq!(list[6].description.as_deref(), Some("[全]ひらがな"));
    assert_eq!(list[7].description.as_deref(), Some("[全]カタカナ"));
}

#[test]
fn plain_kana_stand_behind_the_dictionary() {
    let mut engine = InputMethodEngine::new();
    let mut services = services();
    engine.dicts.system = Some(user_dict_with("かな", "仮名"));
    engine.input_buf.insert("かな");
    services.start(&mut engine, false);
    assert_eq!(candidate_texts(&engine), vec!["仮名", "かな", "カナ"]);
}

#[test]
fn test_alphabet_mode_space_inserts_literal_space() {
    let mut engine = InputMethodEngine::new();
    let mut services = services();

    services.key(&mut engine, &press_shift_key('N' as u32));
    assert!(engine.mode.current() == InputMode::Alphabet);

    services.key(&mut engine, &press('e'));
    services.key(&mut engine, &press('w'));
    assert_eq!(engine.preedit().unwrap().text(), "New");

    services.key(&mut engine, &press_key(Keysym::SPACE));
    assert!(matches!(engine.state(), InputState::Composing { .. }));
    assert_eq!(engine.preedit().unwrap().text(), "New ");

    services.key(&mut engine, &press('y'));
    services.key(&mut engine, &press('o'));
    services.key(&mut engine, &press('r'));
    services.key(&mut engine, &press('k'));
    assert_eq!(engine.preedit().unwrap().text(), "New york");
}

#[test]
fn alphabet_mode_lasts_for_a_composition() {
    let mut engine = InputMethodEngine::new();
    let mut services = services();
    services.key(&mut engine, &press('n'));
    services.key(&mut engine, &press_shift_key('K' as u32));
    assert_eq!(engine.preedit().unwrap().text(), "んK");
    services.key(&mut engine, &press('a'));
    let result = services.key(&mut engine, &press_key(Keysym::RETURN));
    assert_eq!(commits(&result), vec!["んKa"]);
    assert!(engine.mode.current() == InputMode::Hiragana);
    services.key(&mut engine, &press('k'));
    services.key(&mut engine, &press('a'));
    assert_eq!(engine.preedit().unwrap().text(), "か");
}

#[test]
fn emoji_lookup_shows_no_plain_kana() {
    let mut engine = InputMethodEngine::new();
    let mut services = services();
    engine.mode.enter_temporary(InputMode::Emoji);
    engine.input_buf.insert(":smile");
    services.rewrites.push((":smile".to_string(), "😄".to_string()));
    services.start(&mut engine, false);
    assert_eq!(candidate_texts(&engine), vec!["😄"]);

    engine.init_learning_cache(true, LearningConfig { max_entries: 9, max_surface_chars: 9 });
    let result = services.key(&mut engine, &press_key(Keysym::RETURN));
    assert_eq!(commits(&result), vec!["😄"]);
    assert!(engine.take_recorded().is_empty());
    assert_eq!(engine.mode.current(), InputMode::Hiragana);
}

#[test]
fn emoji_lookup_without_a_match_stays_a_composition() {
    let mut engine = InputMethodEngine::new();
    let mut services = services();
    engine.mode.enter_temporary(InputMode::Emoji);
    engine.input_buf.insert(":xyz");
    let result = services.start(&mut engine, false);
    assert!(result.consumed);
    assert!(matches!(engine.state(), InputState::Composing { .. }));
    assert_eq!(engine.preedit().unwrap().text(), ":xyz");
    assert_eq!(engine.preedit().unwrap().caret(), 4);
}

#[test]
fn starting_with_nothing_typed_does_nothing() {
    let mut engine = InputMethodEngine::new();
    let result = services().start(&mut engine, false);
    assert!(result.consumed);
    assert!(result.actions.is_empty());
    assert!(matches!(engine.state(), InputState::Empty));
}

#[test]
fn a_commit_is_recorded_for_the_history() {
    let mut engine = learning_engine();
    let mut services = learned_services("あいしてる", "愛してる");
    engine.input_buf.insert("あい");
    services.start(&mut engine, false);
    navigate_active_candidate_to(&mut services, &mut engine, "愛してる");
    let result = services.key(&mut engine, &press_key(Keysym::RETURN));
    assert!(matches!(result.actions[0], EngineAction::HideCandidates));
    assert!(matches!(result.actions[1], EngineAction::HideAuxText));
    assert_eq!(commits(&result), vec!["愛してる"]);
    let recorded = engine.take_recorded();
    assert_eq!(recorded.len(), 1);
    assert_eq!(recorded[0].reading, "あいしてる");
    assert_eq!(recorded[0].surface, "愛してる");
    assert!(engine.take_recorded().is_empty());
    assert!(matches!(engine.state(), InputState::Empty));
    assert_eq!(engine.input_buf.text, "");
}

#[test]
fn without_a_history_nothing_is_recorded() {
    let mut engine = InputMethodEngine::new();
    let mut services = services();
    engine.input_buf.insert("あい");
    services.start(&mut engine, false);
    services.key(&mut engine, &press_key(Keysym::RETURN));
    assert!(engine.take_recorded().is_empty());
}

#[test]
fn deleting_a_learned_candidate_converts_anew() {
    let mut engine = learning_engine();
    let mut services = learned_services("あい", "藍");
    services.model.push(("あい".to_string(), vec!["藍".to_string()]));
    engine.input_buf.insert("あい");
    services.start(&mut engine, false);
    assert_eq!(candidate_texts(&engine), vec!["藍", "あい", "アイ"]);
    assert!(engine.selected_is_deletable());

    let result = services.key(&mut engine, &press_ctrl(Keysym::DELETE));
    assert!(result.consumed);
    assert!(services.learned.is_empty());
    // The model's copy of the same text comes back.
    assert_eq!(candidate_texts(&engine), vec!["藍", "あい", "アイ"]);
    assert_eq!(
        engine.candidates().unwrap().candidates()[0].source,
        Some(CandidateSource::Model)
    );
    assert!(!engine.selected_is_deletable());

    let result = services.key(&mut engine, &press_ctrl(Keysym::BACKSPACE));
    assert!(result.consumed);
    assert!(result.actions.is_empty());
}

#[test]
fn deleting_what_the_history_lacks_changes_nothing() {
    let mut engine = learning_engine();
    let mut services = learned_services("あい", "藍");
    engine.input_buf.insert("あい");
    services.start(&mut engine, false);
    services.learned.clear();
    let result = services.key(&mut engine, &press_ctrl(Keysym::DELETE));
    assert!(result.consumed);
    assert!(result.actions.is_empty());
    assert_eq!(candidate_texts(&engine), vec!["藍", "あい", "アイ"]);
}

#[test]
fn backspace_and_escape_leave_a_conversion() {
    for key in [
        press_key(Keysym::BACKSPACE),
        press_key(Keysym::ESCAPE),
        press_ctrl(Keysym::KEY_H),
    ] {
        let mut engine = InputMethodEngine::new();
        let mut services = services();
        engine.input_buf.insert("あいう");
        services.start(&mut engine, false);
        let result = services.key(&mut engine, &key);
        assert!(result.consumed);
        assert_eq!(engine.preedit().unwrap().text(), "あいう");
        assert_eq!(engine.preedit().unwrap().caret(), 3);
        assert_eq!(engine.input_buf.cursor_pos, 3);
    }
}

#[test]
fn pages_and_digits_choose_candidates() {
    let mut engine = InputMethodEngine::new();
    let mut services = services();
    let many: Vec<String> = (0..20).map(|i| format!("候補{i}")).collect();
    services.model.push(("あ".to_string(), many));
    engine.input_buf.insert("あ");
    services.start(&mut engine, false);
    assert_eq!(engine.candidates().unwrap().len(), 22);

    services.key(&mut engine, &press_key(Keysym::PAGE_DOWN));
    assert_eq!(engine.candidates().unwrap().cursor(), 9);
    services.key(&mut engine, &press('3'));
    assert_eq!(engine.candidates().unwrap().cursor(), 11);
    services.key(&mut engine, &press_shift_key(Keysym::DOWN));
    assert_eq!(engine.candidates().unwrap().cursor(), 18);
    services.key(&mut engine, &press('9'));
    assert_eq!(engine.candidates().unwrap().cursor(), 18);
    services.key(&mut engine, &press_key(Keysym::PAGE_DOWN));
    assert_eq!(engine.candidates().unwrap().cursor(), 18);
    services.key(&mut engine, &press_ctrl(Keysym::KEY_R));
    assert_eq!(engine.candidates().unwrap().cursor(), 9);
    services.key(&mut engine, &press_key(Keysym::UP));
    assert_eq!(engine.candidates().unwrap().cursor(), 8);
    services.key(&mut engine, &press_shift_key(Keysym::UP));
    assert_eq!(engine.candidates().unwrap().cursor(), 8);
}

#[test]
fn a_candidate_on_the_page_can_be_selected() {
    let mut engine = InputMethodEngine::new();
    let mut services = services();
    assert!(!engine.select_candidate_on_page(0).consumed);

    engine.input_buf.insert("か");
    services.start(&mut engine, false);
    engine.metrics.conversion_ms = 7;
    let result = engine.select_candidate_on_page(1);
    assert!(result.consumed);
    assert!(commits(&result).is_empty());
    assert_eq!(engine.preedit().unwrap().text(), "カ");
    assert_eq!(engine.metrics.conversion_ms, 0);
    assert!(matches!(engine.state(), InputState::Conversion { .. }));
    let result = services.key(&mut engine, &press_key(Keysym::RETURN));
    assert_eq!(commits(&result), vec!["カ"]);
}

#[test]
fn the_focus_goes_around_the_clauses() {
    let mut engine = InputMethodEngine::with_config(EngineConfig {
        composing_chunk_len: 2,
        ..EngineConfig::default()
    });
    let mut services = services();
    engine.input_buf.insert("あいうえおか");
    services.start(&mut engine, false);
    assert_eq!(readings(&engine), vec!["あい", "うえ", "おか"]);
    services.key(&mut engine, &press_key(Keysym::LEFT));
    assert_eq!(segments_of(&engine).1, 2);
    services.key(&mut engine, &press_key(Keysym::RIGHT));
    assert_eq!(segments_of(&engine).1, 0);
    assert_eq!(engine.preedit().unwrap().text(), "あい\u{200B}うえ\u{200B}おか");
    assert_eq!(engine.preedit().unwrap().caret(), 2);
}

#[test]
fn growing_over_a_whole_clause_takes_it_in() {
    let mut engine = InputMethodEngine::with_config(EngineConfig {
        composing_chunk_len: 2,
        ..EngineConfig::default()
    });
    let mut services = services();
    engine.input_buf.insert("あいうえ");
    services.start(&mut engine, false);
    services.key(&mut engine, &press_ctrl(Keysym::KEY_O));
    services.key(&mut engine, &press_ctrl(Keysym::KEY_O));
    assert_eq!(readings(&engine), vec!["あいうえ"]);
    // There is nothing left to take in.
    let result = services.key(&mut engine, &press_ctrl(Keysym::KEY_O));
    assert!(result.consumed);
    assert!(result.actions.is_empty());
    // A clause of one character is not shrunk.
    for _ in 0..5 {
        services.key(&mut engine, &press_shift_key(Keysym::LEFT));
    }
    assert_eq!(readings(&engine), vec!["あ", "いうえ"]);
}

#[test]
fn a_single_clause_is_divided_when_the_focus_moves() {
    let mut engine = InputMethodEngine::with_config(EngineConfig {
        composing_chunk_len: 2,
        ..EngineConfig::default()
    });
    let mut services = services();
    engine.input_buf.insert("あいうえ");
    let candidates =
        CandidateList::from_strings_with_reading(vec!["愛飢え".to_string()], "あいうえ");
    engine.state = InputState::Conversion {
        preedit: Preedit::with_text("愛飢え"),
        candidates: candidates.clone(),
        segments: vec![ConversionSegment {
            reading: "あいうえ".to_string(),
            candidates,
            needs_expansion: false,
        }],
        active_segment: 0,
        skip_learning: false,
    };
    services.key(&mut engine, &press_key(Keysym::RIGHT));
    assert_eq!(readings(&engine), vec!["あい", "うえ"]);
    assert_eq!(segments_of(&engine).1, 1);
    assert_eq!(visible_preedit_text(&engine), "愛飢え");
}

#[test]
fn keys_without_a_meaning_pass() {
    let mut engine = InputMethodEngine::new();
    let mut services = services();
    assert!(!services.key(&mut engine, &press_key(Keysym::ESCAPE)).consumed);
    engine.input_buf.insert("あ");
    services.start(&mut engine, false);
    assert!(!services.key(&mut engine, &press_ctrl(Keysym::KEY_A)).consumed);
    assert!(matches!(engine.state(), InputState::Conversion { .. }));
}

#[test]
fn a_composition_is_committed_or_dropped() {
    let mut engine = InputMethodEngine::new();
    let mut services = services();
    services.key(&mut engine, &press('k'));
    services.key(&mut engine, &press('a'));
    let result = services.key(&mut engine, &press_key(Keysym::RETURN));
    assert_eq!(commits(&result), vec!["か"]);
    assert!(!result.actions.iter().any(|a| matches!(a, EngineAction::UpdatePreedit(_))));

    services.key(&mut engine, &press('k'));
    let result = services.key(&mut engine, &press_key(Keysym::ESCAPE));
    assert!(result.consumed);
    assert!(result
        .actions
        .iter()
        .any(|a| matches!(a, EngineAction::UpdatePreedit(p) if p.text().is_empty())));
    assert!(matches!(engine.state(), InputState::Empty));
}

#[test]
fn scripts_are_switched_without_committing() {
    let mut engine = InputMethodEngine::new();
    let mut services = services();
    engine.input_buf.insert("あいう");
    services.start(&mut engine, false);
    let result = services.key(&mut engine, &press_ctrl(Keysym::KEY_K));
    assert!(commits(&result).is_empty());
    assert!(matches!(engine.state(), InputState::Composing { .. }));
    assert_eq!(engine.preedit().unwrap().text(), "アイウ");
    assert_eq!(engine.input_buf.text, "あいう");

    engine.input_buf.text = "アイう".to_string();
    services.key(&mut engine, &press_ctrl(Keysym::KEY_J));
    assert_eq!(engine.input_buf.text, "あいう");
    assert_eq!(engine.preedit().unwrap().text(), "あいう");
}

#[test]
fn katakana_mode_shows_the_mode_and_the_model() {
    let mut engine = InputMethodEngine::new();
    assert!(engine.enter_katakana_mode().actions.is_empty());
    assert_eq!(engine.mode.current(), InputMode::Katakana);

    let mut engine = InputMethodEngine::new();
    engine.input_buf.insert("あ");
    engine.live.text = "亜".to_string();
    let result = engine.enter_katakana_mode();
    assert_eq!(engine.preedit().unwrap().text(), "ア");
    assert!(matches!(&result.actions[1],
        EngineAction::UpdateAuxText(AuxText::Text(text)) if text == "ア Karukan (unknown)"));
}

#[test]
fn live_conversion_is_switched_on_and_off() {
    let mut engine = InputMethodEngine::new();
    let mut services = services();
    engine.live.enabled = false;
    engine.converters.kanji = Some(ModelHandle { display_name: "m".to_string() });
    services.model.push(("かな".to_string(), vec!["仮名".to_string()]));
    engine.input_buf.insert("かな");
    engine.set_composing_state();
    let chord = KeyEvent {
        keysym: Keysym::KEY_L,
        modifiers: KeyModifiers { shift_key: true, control_key: true, alt_key: false },
    };
    let result = services.key(&mut engine, &chord);
    assert_eq!(engine.preedit().unwrap().text(), "仮名");
    assert!(matches!(result.actions.last(),
        Some(EngineAction::UpdateAuxText(AuxText::Text(text))) if text == "ライブ変換: ON"));
    let result = services.key(&mut engine, &chord);
    assert_eq!(engine.preedit().unwrap().text(), "かな");
    assert!(matches!(result.actions.last(),
        Some(EngineAction::UpdateAuxText(AuxText::Text(text))) if text == "ライブ変換: OFF"));
}

#[test]
fn auto_conversion_is_careful() {
    let mut engine = InputMethodEngine::new();
    let mut services = services();
    engine.converters.kanji = Some(ModelHandle { display_name: "m".to_string() });
    engine.dicts.user = Some(user_dict_with("あい", "愛"));
    services.model.push(("えーあい".to_string(), vec!["AI".to_string()]));
    services.model.push(("うえ".to_string(), vec!["上".to_string()]));

    let mut answers = Answers::new();
    let text = loop {
        match engine.conservative_auto_convert_reading("あいうえ", "左", &answers) {
            Ok(text) => break text,
            Err(question) => services.answer(question, &mut answers),
        }
    };
    assert_eq!(text, "愛上");
    assert_eq!(services.contexts, vec!["左愛".to_string()]);

    engine.dicts.user = None;
    let mut answers = Answers::new();
    let text = loop {
        match engine.conservative_auto_convert_reading("えーあい", "", &answers) {
            Ok(text) => break text,
            Err(question) => services.answer(question, &mut answers),
        }
    };
    assert_eq!(text, "えーあい");

    // Without kana or without a model nothing is asked.
    assert!(matches!(
        engine.conservative_auto_convert_reading("「」", "", &Answers::new()),
        Ok(text) if text == "「」"
    ));
    engine.converters.kanji = None;
    assert!(matches!(
        engine.conservative_auto_convert_reading("うえ", "", &Answers::new()),
        Ok(text) if text == "うえ"
    ));
}

#[test]
fn models_run_as_the_strategy_says() {
    let mut engine = InputMethodEngine::new();
    let beam = ConversionStrategy::ParallelBeam { beam_width: 2 };
    assert_eq!(engine.determine_strategy(1), ConversionStrategy::MainModelOnly);
    assert_eq!(
        engine.determine_strategy(2),
        ConversionStrategy::MainModelBeam { beam_width: 2 }
    );
    assert!(matches!(
        engine.run_kana_kanji_conversion("かな", "", ConversionStrategy::MainModelOnly, None),
        Ok(list) if list.is_empty()
    ));
    engine.converters.kanji = Some(ModelHandle { display_name: "main".to_string() });
    assert!(matches!(
        engine.run_kana_kanji_conversion("「」", "", ConversionStrategy::MainModelOnly, None),
        Ok(list) if list.is_empty()
    ));
    assert!(matches!(
        engine.run_kana_kanji_conversion("かな", "", beam, None),
        Ok(list) if list.is_empty()
    ));
    engine.converters.light_kanji = Some(ModelHandle { display_name: "light".to_string() });
    assert_eq!(engine.determine_strategy(2), beam);
    let query = match engine.run_kana_kanji_conversion("かな", "左", beam, None) {
        Err(query) => query,
        Ok(_) => panic!("the models have to run"),
    };
    assert_eq!(query.katakana, "カナ");
    assert_eq!(query.context, "左");
    assert_eq!(query.main, Some(1));
    assert_eq!(query.light, Some(2));

    let reply = ModelReply {
        main: vec!["仮名".to_string()],
        light: vec!["仮名".to_string(), "金".to_string(), "哉".to_string()],
        elapsed_ms: 12,
    };
    let list = engine.run_kana_kanji_conversion("かな", "左", beam, Some(reply));
    assert!(matches!(list, Ok(list) if list == vec!["仮名".to_string(), "金".to_string()]));
    assert_eq!(engine.metrics.conversion_ms, 12);
    assert_eq!(engine.metrics.model_name, "main+light");

    let reply = ModelReply {
        main: vec![],
        light: vec!["金".to_string()],
        elapsed_ms: 3,
    };
    let only = ConversionStrategy::LightModelOnly;
    assert!(engine.run_kana_kanji_conversion("かな", "", only, Some(reply)).is_ok());
    assert_eq!(engine.metrics.model_name, "light");
}

#[test]
fn model_advice_runs_the_models_for_the_number_wanted() {
    let mut engine = InputMethodEngine::new();
    assert!(matches!(engine.model_advice("かな", "", 9, None), Ok(list) if list.is_empty()));
    engine.converters.kanji = Some(ModelHandle { display_name: "main".to_string() });
    let query = match engine.model_advice("かな", "左", 1, None) {
        Err(query) => query,
        Ok(_) => panic!("the models have to run"),
    };
    assert_eq!((query.main, query.light), (Some(1), None));
    engine.converters.light_kanji = Some(ModelHandle { display_name: "light".to_string() });
    let query = match engine.model_advice("かな", "左", 2, None) {
        Err(query) => query,
        Ok(_) => panic!("the models have to run"),
    };
    assert_eq!((query.main, query.light), (Some(1), Some(2)));
    assert_eq!(query.katakana, "カナ");
    assert_eq!(query.context, "左");
    let reply = ModelReply {
        main: vec!["仮名".to_string()],
        light: vec!["金".to_string(), "仮名".to_string(), "哉".to_string()],
        elapsed_ms: 7,
    };
    let list = engine.model_advice("かな", "左", 2, Some(reply));
    assert!(matches!(list, Ok(list) if list == vec!["仮名".to_string(), "金".to_string()]));
    assert_eq!(engine.metrics.conversion_ms, 7);
    assert_eq!(engine.metrics.model_name, "main+light");
}

#[test]
fn the_history_offers_few_conversions() {
    let exact: Vec<String> = ["一", "二", "一", "三", "四"].iter().map(|s| s.to_string()).collect();
    let shown: Vec<String> = lookup_learning_candidates(true, "あ", &exact, &vec![])
        .into_iter()
        .map(|c| c.text)
        .collect();
    assert_eq!(shown, vec!["一", "二", "三"]);
    assert!(lookup_learning_candidates(false, "あ", &exact, &vec![]).is_empty());

    let entry = |reading: String, surface: String| LearnedEntry { reading, surface };
    let prefix = vec![
        entry("あ".to_string(), "亜".to_string()),
        entry("あ".repeat(13), "長".to_string()),
        entry("ああ".to_string(), "長".repeat(25)),
        entry("あ".repeat(12), "長".repeat(24)),
    ];
    let shown = lookup_learning_candidates(true, "あ", &vec![], &prefix);
    assert_eq!(shown.len(), 1);
    assert_eq!(shown[0].reading, Some("あ".repeat(12)));
    assert_eq!(shown[0].text, "長".repeat(24));
}

#[test]
fn variants_are_offered_for_what_was_typed() {
    let mut services = services();
    services.rewrites.push(("「".to_string(), "『".to_string()));
    services.rewrites.push(("「".to_string(), "【".to_string()));
    let list = lookup_rewriter_variants(&services.advice("「"));
    let texts: Vec<&str> = list.iter().map(|c| c.text.as_str()).collect();
    assert_eq!(texts, vec!["『", "【"]);
    assert_eq!(list[0].reading.as_deref(), Some("「"));
    assert_eq!(list[0].source, Some(CandidateSource::Rewriter));
}

#[test]
fn symbols_are_named() {
    let mut advice = services().advice("「");
    advice.reading_symbol = Some("始めかぎ括弧".to_string());
    advice.model.push("w".to_string());
    let list = build_conversion_candidates(&None, &None, false, false, "「", &advice, false);
    assert_eq!(list[0].text, "w");
    assert_eq!(list[0].description, None);
    assert_eq!(list[1].text, "「");
    assert_eq!(list[1].description.as_deref(), Some("始めかぎ括弧"));
}

#[test]
fn conversions_are_recorded_only_with_a_history() {
    let mut engine = InputMethodEngine::new();
    engine.record_learning("あい", "愛");
    assert!(engine.take_recorded().is_empty());
    let mut engine = learning_engine();
    engine.record_learning("あい", "愛");
    let recorded = engine.take_recorded();
    assert_eq!(recorded[0].reading, "あい");
    assert_eq!(recorded[0].surface, "愛");
}

#[test]
fn a_text_is_put_in_at_the_cursor() {
    let mut engine = InputMethodEngine::new();
    let mut services = services();
    engine.input_buf.insert("あう");
    engine.input_buf.cursor_pos = 1;
    services.key(&mut engine, &press('i'));
    assert_eq!(engine.input_buf.text, "あいう");
    assert_eq!(engine.input_buf.cursor_pos, 2);
    services.key(&mut engine, &press('k'));
    assert_eq!(engine.preedit().unwrap().text(), "あいkう");
    assert_eq!(engine.preedit().unwrap().caret(), 3);
}
