//! The rules for kana, spans, keys and clauses.

use karukan_im::alignment::split_navigation_spans_aligned_to_surface;
use karukan_im::candidate::{merge_candidates_dedup, CandidateList, Navigation};
use karukan_im::dictionary::{Dictionary, DictionaryCandidate, DictionaryEntry};
use karukan_im::kana::{
    contains_kana, has_multiple_katakana_runs, hiragana_to_katakana, katakana_to_hiragana,
    suspicious_auto_conversion, width_annotation,
};
use karukan_im::keycode::{conversion_command, ConversionCommand, KeyEvent, KeyModifiers, Keysym};
use karukan_im::segmentation::{split_free_reading_segments, user_dictionary_auto_text};
use karukan_im::sources::search_dictionaries;
use karukan_im::spans::{
    coalesce_spans_to_surface_len, merge_reading_spans, split_surface_by_reading_lengths,
    split_surface_preserving_fixed_spans, ReadingSpan,
};
use karukan_im::text::{decimal, sorted_texts};

fn dict(entries: &[(&str, &[(&str, i32)])]) -> Option<Dictionary> {
    Some(Dictionary::from_entries(
        entries
            .iter()
            .map(|(reading, surfaces)| DictionaryEntry {
                reading: reading.to_string(),
                candidates: surfaces
                    .iter()
                    .map(|(surface, score)| DictionaryCandidate {
                        surface: surface.to_string(),
                        score: *score,
                    })
                    .collect(),
            })
            .collect(),
    ))
}

fn free(reading: &str) -> ReadingSpan {
    ReadingSpan { reading: reading.to_string(), fixed_surface: None }
}

fn fixed(reading: &str, surface: &str) -> ReadingSpan {
    ReadingSpan { reading: reading.to_string(), fixed_surface: Some(surface.to_string()) }
}

fn readings(spans: &[ReadingSpan]) -> Vec<&str> {
    spans.iter().map(|span| span.reading.as_str()).collect()
}

fn some(texts: &[&str]) -> Vec<Option<String>> {
    texts.iter().map(|text| Some(text.to_string())).collect()
}

#[test]
fn rejects_latin_hallucinations_for_hiragana_readings() {
    assert!(suspicious_auto_conversion("あい", "I"));
    assert!(suspicious_auto_conversion("えーあい", "AI"));
}

#[test]
fn accepts_japanese_and_numeric_surfaces() {
    assert!(!suspicious_auto_conversion("あい", "愛"));
    assert!(!suspicious_auto_conversion("ぷろぐらむしょぞく", "プログラム所属"));
    assert!(!suspicious_auto_conversion("にせんにじゅうろくねん", "2026年"));
}

#[test]
fn kana_scripts_are_told_apart_and_changed() {
    assert!(contains_kana("「か」"));
    assert!(contains_kana("カ"));
    assert!(!contains_kana("「abc」"));
    assert_eq!(hiragana_to_katakana("きょう、は"), "キョウ、ハ");
    assert_eq!(katakana_to_hiragana("キョウ、は"), "きょう、は");
    assert_eq!(width_annotation("かな"), Some("[全]ひらがな"));
    assert_eq!(width_annotation("カナ"), Some("[全]カタカナ"));
    assert_eq!(width_annotation("ｱ"), Some("[半]カタカナ"));
    assert_eq!(width_annotation("ｶﾞｰｦﾟ"), Some("[半]カタカナ"));
    assert_eq!(width_annotation("ｶナ"), None);
    assert_eq!(width_annotation("｡"), None);
    assert_eq!(width_annotation(""), None);
    assert_eq!(width_annotation("仮名"), None);
    assert!(has_multiple_katakana_runs("プロとログ"));
    assert!(!has_multiple_katakana_runs("プログラム所属"));
}

#[test]
fn a_surface_is_shared_out_by_the_readings() {
    let spans = vec![free("あい"), free("うえ")];
    assert_eq!(split_surface_by_reading_lengths("愛飢え", &spans), some(&["愛飢", "え"]));
    assert_eq!(split_surface_by_reading_lengths("", &spans), vec![None, None]);
    let three = vec![free("きょう"), free("は"), free("てんき")];
    assert_eq!(
        split_surface_by_reading_lengths("今日は天気", &three).concat_texts(),
        "今日は天気"
    );
}

trait ConcatTexts {
    fn concat_texts(&self) -> String;
}

impl ConcatTexts for Vec<Option<String>> {
    fn concat_texts(&self) -> String {
        self.iter().flatten().cloned().collect()
    }
}

#[test]
fn fixed_surfaces_are_anchors() {
    let spans = vec![free("わたしと"), fixed("あい", "愛"), free("うえ")];
    assert_eq!(
        split_surface_preserving_fixed_spans("私と愛上", &spans),
        some(&["私と", "愛", "上"])
    );
    // Without the anchor the text is shared out.
    let pieces = split_surface_preserving_fixed_spans("私と藍上", &spans);
    assert_eq!(pieces.concat_texts(), "私と藍上");
}

#[test]
fn spans_are_merged_down_to_the_surface() {
    let merged = merge_reading_spans(fixed("あ", "亜"), fixed("い", "胃"));
    assert_eq!(merged.reading, "あい");
    assert_eq!(merged.fixed_surface.as_deref(), Some("亜胃"));
    assert_eq!(merge_reading_spans(free("あ"), fixed("い", "胃")).fixed_surface, None);

    let spans = vec![free("あ"), free("い"), free("うえお"), fixed("か", "蚊")];
    let merged = coalesce_spans_to_surface_len(spans, "愛王蚊");
    assert_eq!(readings(&merged), vec!["あい", "うえお", "か"]);
    assert_eq!(merged[2].fixed_surface.as_deref(), Some("蚊"));
}

#[test]
fn free_readings_are_cut_at_words_and_at_the_limit() {
    let system = dict(&[("きょう", &[("今日", 1)])]);
    assert_eq!(
        readings(&split_free_reading_segments(&system, 40, "きょうは")),
        vec!["きょう", "は"]
    );
    assert_eq!(
        readings(&split_free_reading_segments(&None, 3, "あいうえ")),
        vec!["あいう", "え"]
    );
    assert_eq!(
        readings(&split_free_reading_segments(&None, 40, "あいうえおかきくけこ")),
        vec!["あいうえおかきく", "けこ"]
    );
}

#[test]
fn registered_words_replace_their_readings() {
    let user = dict(&[("あい", &[("愛", 1)]), ("あいう", &[("合う", 1)])]);
    assert_eq!(
        user_dictionary_auto_text(&user, &None, 40, "かあいうえ").as_deref(),
        Some("か合うえ")
    );
    assert_eq!(user_dictionary_auto_text(&user, &None, 40, "かき"), None);
}

#[test]
fn words_are_aligned_to_the_surface() {
    let system = dict(&[
        ("きょう", &[("今日", 10)]),
        ("きょうは", &[("教派", 1)]),
        ("てんき", &[("天気", 10)]),
    ]);
    let spans =
        split_navigation_spans_aligned_to_surface(&None, &system, 40, "きょうはてんき", "今日は天気")
            .unwrap();
    assert_eq!(readings(&spans), vec!["きょう", "は", "てんき"]);
    assert_eq!(spans[0].fixed_surface.as_deref(), Some("今日"));
    assert_eq!(spans[1].fixed_surface, None);
    assert!(split_navigation_spans_aligned_to_surface(&None, &system, 40, "きょう", "明日")
        .is_none());
}

#[test]
fn dictionaries_are_searched_in_order_of_score() {
    let user = dict(&[("かな", &[("愛", 5), ("哉", 1)])]);
    let system = dict(&[("かな", &[("家内", 9), ("哉", 2), ("金", 3)])]);
    let texts: Vec<String> = search_dictionaries(&user, &system, "かな", 100)
        .into_iter()
        .map(|c| c.text)
        .collect();
    assert_eq!(texts, vec!["愛", "哉", "金", "家内"]);
    assert_eq!(search_dictionaries(&user, &system, "かな", 3).len(), 3);
    assert!(search_dictionaries(&user, &system, "か", 3).is_empty());
}

#[test]
fn dictionaries_know_words_and_their_beginnings() {
    let words = dict(&[("あ", &[("亜", 1)]), ("あい", &[("愛", 1)]), ("い", &[("胃", 1)])]).unwrap();
    assert_eq!(words.exact_match_search("あい").unwrap().candidates[0].surface, "愛");
    assert!(words.exact_match_search("う").is_none());
    let found: Vec<&str> = words
        .common_prefix_search("あいう")
        .iter()
        .map(|entry| entry.reading.as_str())
        .collect();
    assert_eq!(found, vec!["あ", "あい"]);
}

#[test]
fn merged_candidates_occur_once() {
    let texts = |list: &[&str]| list.iter().map(|t| t.to_string()).collect::<Vec<_>>();
    assert_eq!(
        merge_candidates_dedup(texts(&["a", "b", "a"]), texts(&["b", "c", "d"]), 3),
        texts(&["a", "b", "c"])
    );
    assert!(merge_candidates_dedup(texts(&["a"]), texts(&[]), 0).is_empty());
}

#[test]
fn moving_forward_and_back_comes_to_the_same() {
    let texts = vec!["a".to_string(), "b".to_string(), "c".to_string()];
    let mut list = CandidateList::from_strings_with_reading(texts, "r");
    for _ in 0..4 {
        let start = list.cursor();
        list.navigate(Navigation::Next);
        assert_ne!(list.cursor(), start);
        list.navigate(Navigation::Previous);
        assert_eq!(list.cursor(), start);
        list.navigate(Navigation::Previous);
    }
    list.navigate(Navigation::Digit(4));
    assert!(list.cursor() < 3);
}

fn key(keysym: u32, shift_key: bool, control_key: bool, alt_key: bool) -> KeyEvent {
    KeyEvent { keysym, modifiers: KeyModifiers { shift_key, control_key, alt_key } }
}

#[test]
fn keys_have_their_meaning_in_a_conversion() {
    let plain = |keysym: u32| conversion_command(&key(keysym, false, false, false));
    let shift = |keysym: u32| conversion_command(&key(keysym, true, false, false));
    let control = |keysym: u32| conversion_command(&key(keysym, false, true, false));
    let both = |keysym: u32| conversion_command(&key(keysym, false, true, true));

    assert_eq!(plain(Keysym::RETURN), ConversionCommand::Commit);
    assert_eq!(plain(Keysym::ESCAPE), ConversionCommand::Cancel);
    assert_eq!(plain(Keysym::TAB), ConversionCommand::Navigate(Navigation::Next));
    assert_eq!(shift(Keysym::DOWN), ConversionCommand::Navigate(Navigation::NextPage));
    assert_eq!(shift(Keysym::LEFT), ConversionCommand::Shrink);
    assert_eq!(shift(Keysym::RIGHT), ConversionCommand::Expand);
    assert_eq!(plain(Keysym::LEFT), ConversionCommand::PreviousSegment);
    assert_eq!(control(Keysym::KEY_F), ConversionCommand::PreviousSegment);
    assert_eq!(control(Keysym::KEY_B_UPPER), ConversionCommand::NextSegment);
    assert_eq!(control(Keysym::KEY_V), ConversionCommand::Navigate(Navigation::NextPage));
    assert_eq!(control(Keysym::DELETE), ConversionCommand::Forget);
    assert_eq!(control(Keysym::BACKSPACE), ConversionCommand::Forget);
    assert_eq!(both(Keysym::BACKSPACE), ConversionCommand::Cancel);
    assert_eq!(both(Keysym::DELETE), ConversionCommand::Pass);
    assert_eq!(plain('7' as u32), ConversionCommand::Navigate(Navigation::Digit(7)));
    assert_eq!(plain('0' as u32), ConversionCommand::CommitAndType('0'));
    assert_eq!(plain('k' as u32), ConversionCommand::CommitAndType('k'));
    assert_eq!(control('x' as u32), ConversionCommand::Pass);
    assert_eq!(plain(0xffbe), ConversionCommand::Pass);
}

#[test]
fn texts_are_put_in_order() {
    let texts = |list: &[&str]| list.iter().map(|t| t.to_string()).collect::<Vec<_>>();
    let given = texts(&["b.tsv", "あ.tsv", "a.tsv", "B.tsv", "a.tsv", "a"]);
    let mut expected = given.clone();
    expected.sort();
    assert_eq!(sorted_texts(given), expected);
}

#[test]
fn numbers_are_written_in_digits() {
    assert_eq!(decimal(0), "0");
    assert_eq!(decimal(1024), "1024");
    assert_eq!(decimal(u64::MAX), u64::MAX.to_string());
}
