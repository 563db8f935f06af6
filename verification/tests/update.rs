//! Getting ready, and updates of the system dictionary.

use flate2::write::GzEncoder;
use flate2::Compression;
use karukan_im::archive::{accept_dictionary, extract_dictionary, scan_archive};
use karukan_im::archive::{ArchiveError, ListedEntry, Scan};
use karukan_im::consult::{Answers, Question, RomajiStep};
use karukan_im::dictionary::{Dictionary, DictionaryCandidate, DictionaryEntry};
use karukan_im::dictionary_update::{
    background_poll_interval, check_is_due, is_white_space, spawn_background_update,
    unique_temp_name, validate_https_url, validate_manifest, BackgroundDictionaryUpdate,
    DictionaryArchive, DictionaryManifest, DictionaryUpdateOutcome, DictionaryUpdateState,
    UpdateError, UrlLabel,
};
use karukan_im::engine::{InputMethodEngine, ModelHandle};
use karukan_im::hash::{eq_ignore_ascii_case, sha256_hex};
use karukan_im::init::{
    load_model_converters, dictionaries_to_merge, starts_empty, threads_label, usable_dictionaries,
    DictionaryFile, FoundResources, HistoryFile, LoadError, LoadedModels, LoadedResources, ModelError, ModelLoads,
    ModelOutcome, ResolvedVariant, ResourcePoll, UpdatePoll,
};
use karukan_im::keycode::{KeyEvent, Keysym};
use karukan_im::settings::{
    ConversionSettings, DictionaryUpdateSettings, EngineConfig, LearningConfig, LearningSettings,
    Settings, StrategyMode,
};
use karukan_im::state::InputState;
use karukan_im::updater::{
    install_verified_archive, update_dictionary, LockOutcome, StageOutcome, UpdateAction,
    UpdateEvent, Updater,
};

fn settings() -> Settings {
    Settings {
        conversion: ConversionSettings {
            model: None,
            light_model: None,
            dict_path: None,
            strategy: StrategyMode::Adaptive,
            n_threads: 0,
            live_conversion: true,
        },
        learning: LearningSettings { enabled: true, max_entries: 10, max_surface_chars: 10 },
        dictionary_update: DictionaryUpdateSettings {
            enabled: true,
            manifest_url: "https://example.com/published.json".to_string(),
            check_interval_hours: 24,
            timeout_seconds: 0,
        },
    }
}

fn dictionary(reading: &str, surface: &str) -> Dictionary {
    Dictionary::from_entries(vec![DictionaryEntry {
        reading: reading.to_string(),
        candidates: vec![DictionaryCandidate { surface: surface.to_string(), score: 1 }],
    }])
}

fn tar_gz(files: &[(&str, &[u8], bool)]) -> Vec<u8> {
    let encoder = GzEncoder::new(Vec::new(), Compression::default());
    let mut builder = tar::Builder::new(encoder);
    for (name, data, regular) in files {
        let mut header = tar::Header::new_gnu();
        header.set_size(data.len() as u64);
        header.set_mode(0o644);
        if !regular {
            header.set_entry_type(tar::EntryType::Directory);
        }
        header.as_old_mut().name[..name.len()].copy_from_slice(name.as_bytes());
        header.set_cksum();
        builder.append(&header, *data).unwrap();
    }
    builder.into_inner().unwrap().finish().unwrap()
}

fn manifest_for(archive: &Vec<u8>) -> DictionaryManifest {
    DictionaryManifest {
        schema_version: 1,
        version: "test-1".to_string(),
        source_version: Some("test-source".to_string()),
        url: "https://example.com/dict.tgz".to_string(),
        sha256: sha256_hex(archive),
        size: archive.len() as u64,
        archive: DictionaryArchive::TarGzip,
    }
}

fn good_manifest() -> DictionaryManifest {
    manifest_for(&tar_gz(&[("dict.bin", b"dictionary", true)]))
}

#[test]
fn manifest_requires_https_and_valid_digest() {
    let manifest = DictionaryManifest {
        schema_version: 1,
        version: "test".to_string(),
        source_version: None,
        url: "http://example.com/dict.tgz".to_string(),
        sha256: "x".repeat(64),
        size: 1,
        archive: DictionaryArchive::TarGzip,
    };
    assert!(validate_manifest(&manifest).is_err());
}

#[test]
fn each_fault_of_a_manifest_is_told() {
    let fault = |change: fn(&mut DictionaryManifest)| {
        let mut manifest = good_manifest();
        change(&mut manifest);
        validate_manifest(&manifest)
    };
    assert_eq!(fault(|_| ()), Ok(()));
    assert_eq!(fault(|m| m.schema_version = 2), Err(UpdateError::Schema(2)));
    assert_eq!(fault(|m| m.version = " \u{3000}\t".to_string()), Err(UpdateError::Version));
    assert_eq!(fault(|m| m.version = String::new()), Err(UpdateError::Version));
    assert_eq!(fault(|m| m.version = "v".repeat(128)), Ok(()));
    assert_eq!(fault(|m| m.version = "あ".repeat(43)), Err(UpdateError::Version));
    assert_eq!(
        fault(|m| m.url = "https://example.com/a b".to_string()),
        Err(UpdateError::Url(UrlLabel::Archive))
    );
    assert_eq!(fault(|m| m.size = 0), Err(UpdateError::Size(0)));
    assert_eq!(fault(|m| m.size = 268_435_456), Ok(()));
    assert_eq!(fault(|m| m.size = 268_435_457), Err(UpdateError::Size(268_435_457)));
    assert_eq!(fault(|m| m.sha256 = "x".repeat(64)), Err(UpdateError::Digest));
    assert_eq!(fault(|m| m.sha256 = "a".repeat(63)), Err(UpdateError::Digest));
    assert_eq!(fault(|m| m.sha256 = "aB09".repeat(16)), Ok(()));
}

#[test]
fn faults_are_put_in_words() {
    assert_eq!(
        UpdateError::Schema(7).to_text(),
        "unsupported dictionary manifest schema 7"
    );
    assert_eq!(
        UpdateError::Url(UrlLabel::FinalArchive).to_text(),
        "final dictionary archive URL must use HTTPS"
    );
    assert_eq!(
        UpdateError::SizeMismatch { expected: 10, actual: 9 }.to_text(),
        "dictionary archive size mismatch: expected 10, got 9"
    );
    assert_eq!(
        UpdateError::Archive(ArchiveError::Missing).to_text(),
        "dictionary archive does not contain dict.bin"
    );
}

#[test]
fn addresses_have_to_be_encrypted() {
    assert_eq!(validate_https_url("https://a", UrlLabel::Manifest), Ok(()));
    for url in ["http://a", "https:/", "", "https://a\u{a0}b", " https://a"] {
        assert_eq!(
            validate_https_url(url, UrlLabel::Manifest),
            Err(UpdateError::Url(UrlLabel::Manifest))
        );
    }
}

#[test]
fn white_space_is_that_of_unicode() {
    for code in 0..=0x10ffffu32 {
        if let Some(c) = char::from_u32(code) {
            assert_eq!(is_white_space(c), c.is_whitespace(), "U+{code:04X}");
        }
    }
}

#[test]
fn update_interval_handles_clock_rollback() {
    let state = DictionaryUpdateState {
        last_checked_unix: 1_000,
        ..DictionaryUpdateState::default()
    };
    assert!(!check_is_due(&state, 1_100, 200));
    assert!(check_is_due(&state, 1_200, 200));
    assert!(check_is_due(&state, 900, 200));
    assert!(check_is_due(&DictionaryUpdateState::default(), 5, u64::MAX));
}

#[test]
fn background_polling_is_bounded() {
    let mut settings = settings();
    settings.dictionary_update.check_interval_hours = 24;
    assert_eq!(background_poll_interval(&settings), 3600);
    settings.dictionary_update.check_interval_hours = 0;
    assert_eq!(background_poll_interval(&settings), 86_400);
    settings.dictionary_update.check_interval_hours = u64::MAX;
    assert_eq!(background_poll_interval(&settings), 3600);
}

#[test]
fn background_updates_are_refused() {
    let mut settings = settings();
    assert!(spawn_background_update(&settings, false));
    assert!(!spawn_background_update(&settings, true));
    settings.dictionary_update.enabled = false;
    assert!(!spawn_background_update(&settings, false));
    settings.dictionary_update.enabled = true;
    settings.conversion.dict_path = Some("/own".to_string());
    assert!(!spawn_background_update(&settings, false));
}

#[test]
fn custom_dictionary_is_never_updated() {
    let mut settings = settings();
    settings.conversion.dict_path = Some("/owned/custom-dict.bin".to_string());
    let (updater, action) = update_dictionary(&settings, true, false, "dict.bin");
    assert!(matches!(
        action,
        UpdateAction::Finish(DictionaryUpdateOutcome::Skipped { .. })
    ));
    let (_, action) = updater.advance(UpdateEvent::Locked(LockOutcome::Held));
    assert!(matches!(action, UpdateAction::Wait));
}

#[test]
fn archive_digest_is_revalidated_before_installation() {
    let archive = tar_gz(&[("dict.bin", b"dictionary", true)]);
    let mut manifest = manifest_for(&archive);
    assert_eq!(install_verified_archive(&archive, &manifest), Ok(b"dictionary".to_vec()));
    manifest.sha256 = manifest.sha256.to_uppercase();
    assert_eq!(install_verified_archive(&archive, &manifest), Ok(b"dictionary".to_vec()));

    manifest.sha256 = "0".repeat(64);
    assert!(install_verified_archive(&archive, &manifest).is_err());
    assert_eq!(
        install_verified_archive(&archive, &manifest),
        Err(UpdateError::Revalidation)
    );
    manifest.size += 1;
    assert_eq!(install_verified_archive(&archive, &manifest), Err(UpdateError::Changed));
}

#[test]
fn digests_are_those_of_sha_256() {
    assert_eq!(
        sha256_hex(&b"abc".to_vec()),
        "ba7816bf8f01cfea414140de5dae2223b00361a396177a9cb410ff61f20015ad"
    );
    assert!(eq_ignore_ascii_case("aBc1", "AbC1"));
    assert!(!eq_ignore_ascii_case("aBc1", "AbC2"));
    assert!(!eq_ignore_ascii_case("abc", "abcd"));
}

#[test]
fn the_dictionary_is_taken_out_of_its_archive() {
    let other: &[u8] = b"other";
    let data: &[u8] = b"the dictionary";
    assert_eq!(
        extract_dictionary(&tar_gz(&[("README", other, true), ("./dict.bin", data, true)])),
        Ok(data.to_vec())
    );
    assert_eq!(
        extract_dictionary(&tar_gz(&[("sub/dict.bin", data, true)])),
        Err(ArchiveError::Missing)
    );
    assert_eq!(
        extract_dictionary(&tar_gz(&[("dict.bin", data, true), ("./dict.bin", other, true)])),
        Err(ArchiveError::InvalidEntry)
    );
    assert_eq!(
        extract_dictionary(&tar_gz(&[("dict.bin", b"", false)])),
        Err(ArchiveError::InvalidEntry)
    );
    assert_eq!(extract_dictionary(&b"no archive".to_vec()), Err(ArchiveError::Unreadable));
    let whole = tar_gz(&[("dict.bin", data, true)]);
    assert!(extract_dictionary(&whole[..whole.len() / 2].to_vec()).is_err());
}

#[test]
fn an_archive_is_gone_through_entry_by_entry() {
    let entry = |path: &[&str], is_file: bool| ListedEntry::Entry {
        path: path.iter().map(|p| p.to_string()).collect(),
        is_file,
    };
    let listing = vec![entry(&["README"], true), entry(&[".", "dict.bin"], true)];
    assert_eq!(scan_archive(&listing, 0, false), Scan::Read(1));
    assert_eq!(scan_archive(&listing, 2, true), Scan::Done);
    assert_eq!(scan_archive(&listing, 0, true), Scan::Fail(ArchiveError::InvalidEntry));
    assert_eq!(
        scan_archive(&vec![ListedEntry::BadPath], 0, true),
        Scan::Fail(ArchiveError::BadPath)
    );
    assert_eq!(
        scan_archive(&vec![ListedEntry::Broken], 0, true),
        Scan::Fail(ArchiveError::Unreadable)
    );
    assert_eq!(scan_archive(&vec![], 0, false), Scan::Fail(ArchiveError::Missing));
    assert_eq!(accept_dictionary(None), Err(ArchiveError::Unreadable));
    assert_eq!(accept_dictionary(Some(vec![1])), Ok(vec![1]));
}

fn begin(force: bool) -> Updater {
    let (updater, action) = update_dictionary(&settings(), force, false, "/data/dict.bin");
    assert!(matches!(action, UpdateAction::Lock));
    let (updater, action) = updater.advance(UpdateEvent::Locked(LockOutcome::Held));
    assert!(matches!(action, UpdateAction::ReadState));
    updater
}

fn fetched(manifest: &DictionaryManifest) -> UpdateEvent {
    UpdateEvent::ManifestFetched {
        final_url: "https://example.com/published.json".to_string(),
        size: 300,
        manifest: Some(manifest.clone()),
    }
}

#[test]
fn a_new_dictionary_is_installed_step_by_step() {
    let archive = tar_gz(&[("dict.bin", b"dictionary", true)]);
    let manifest = manifest_for(&archive);
    let updater = begin(false);
    let (updater, action) = updater.advance(UpdateEvent::StateRead { state: None, now: 50 });
    assert!(matches!(action, UpdateAction::FetchManifest { url, timeout_seconds: 1 }
        if url == "https://example.com/published.json"));
    let (updater, action) = updater.advance(fetched(&manifest));
    assert!(matches!(action, UpdateAction::OpenArchive { url } if url == manifest.url));
    let (updater, action) = updater.advance(UpdateEvent::ArchiveOpened {
        final_url: "https://mirror.example.com/dict.tgz".to_string(),
    });
    assert!(matches!(action, UpdateAction::ReadChunk));
    let (first, second) = archive.split_at(archive.len() / 2);
    let (updater, action) = updater.advance(UpdateEvent::Chunk(first.to_vec()));
    assert!(matches!(action, UpdateAction::ReadChunk));
    let (updater, action) = updater.advance(UpdateEvent::Chunk(second.to_vec()));
    assert!(matches!(action, UpdateAction::ReadChunk));
    let (updater, action) = updater.advance(UpdateEvent::EndOfData);
    assert!(matches!(action, UpdateAction::StoreArchive(bytes) if bytes == archive));
    let (updater, action) = updater.advance(UpdateEvent::Stored { stored: true });
    assert!(matches!(action, UpdateAction::RereadArchive));
    let (updater, action) = updater.advance(UpdateEvent::Reread(Some(archive)));
    assert!(matches!(action, UpdateAction::Stage(bytes) if bytes == b"dictionary"));
    let (updater, action) =
        updater.advance(UpdateEvent::Staged(StageOutcome::Valid { replaces: true }));
    assert!(matches!(action, UpdateAction::BackUp));
    let (updater, action) = updater.advance(UpdateEvent::BackedUp { done: true });
    assert!(matches!(action, UpdateAction::Replace));
    let (updater, action) = updater.advance(UpdateEvent::Replaced { done: true });
    assert!(matches!(action, UpdateAction::SaveState(state)
        if state.last_checked_unix == 50
            && state.installed_version.as_deref() == Some("test-1")
            && state.archive_sha256.as_deref() == Some(manifest.sha256.as_str())));
    // The update counts although it could not be noted.
    let (_, action) = updater.advance(UpdateEvent::StateSaved { saved: false });
    match action {
        UpdateAction::Finish(outcome) => {
            assert_eq!(outcome.to_text(), "updated to test-1: /data/dict.bin")
        }
        _ => panic!("the update is finished"),
    }
}

#[test]
fn what_is_installed_is_not_fetched_again() {
    let manifest = good_manifest();
    let state = || DictionaryUpdateState {
        last_checked_unix: 10,
        installed_version: Some(manifest.version.clone()),
        archive_sha256: Some(manifest.sha256.clone()),
    };
    let read = UpdateEvent::StateRead { state: Some(state()), now: 1_000_000 };
    let (updater, _) = begin(false).advance(read);
    let (updater, action) = updater.advance(fetched(&manifest));
    assert!(matches!(action, UpdateAction::CheckInstalled));
    let (updater, action) = updater.advance(UpdateEvent::InstalledChecked { usable: true });
    assert!(matches!(action, UpdateAction::SaveState(state)
        if state.last_checked_unix == 1_000_000 && state.installed_version.is_some()));
    let (_, action) = updater.advance(UpdateEvent::StateSaved { saved: true });
    match action {
        UpdateAction::Finish(outcome) => {
            assert_eq!(outcome.to_text(), "already up to date: test-1")
        }
        _ => panic!("the update is finished"),
    }

    // A damaged installation is fetched again.
    let read = UpdateEvent::StateRead { state: Some(state()), now: 1_000_000 };
    let (updater, _) = begin(false).advance(read);
    let (updater, _) = updater.advance(fetched(&manifest));
    let (_, action) = updater.advance(UpdateEvent::InstalledChecked { usable: false });
    assert!(matches!(action, UpdateAction::OpenArchive { .. }));
}

#[test]
fn a_recent_check_is_not_repeated_unless_forced() {
    let state = || DictionaryUpdateState {
        last_checked_unix: 1_000,
        ..DictionaryUpdateState::default()
    };
    let (_, action) = begin(false)
        .advance(UpdateEvent::StateRead { state: Some(state()), now: 1_001 });
    match action {
        UpdateAction::Finish(outcome) => {
            assert_eq!(outcome.to_text(), "skipped: checked recently")
        }
        _ => panic!("the update is skipped"),
    }
    let (_, action) = begin(true)
        .advance(UpdateEvent::StateRead { state: Some(state()), now: 1_001 });
    assert!(matches!(action, UpdateAction::FetchManifest { .. }));
}

#[test]
fn updates_can_be_forbidden() {
    let mut off = settings();
    off.dictionary_update.enabled = false;
    let reason = |action: UpdateAction| match action {
        UpdateAction::Finish(outcome) => outcome.to_text(),
        _ => panic!("the update is skipped"),
    };
    assert_eq!(
        reason(update_dictionary(&off, false, false, "d").1),
        "skipped: disabled in config.toml"
    );
    assert!(matches!(update_dictionary(&off, true, false, "d").1, UpdateAction::Lock));
    assert_eq!(
        reason(update_dictionary(&off, true, true, "d").1),
        "skipped: disabled by KARUKAN_DISABLE_DICTIONARY_UPDATE"
    );
    let (updater, _) = update_dictionary(&settings(), false, false, "d");
    assert_eq!(
        reason(updater.advance(UpdateEvent::Locked(LockOutcome::Busy)).1),
        "skipped: another Karukan process is updating the dictionary"
    );
}

fn error_of(action: UpdateAction) -> UpdateError {
    match action {
        UpdateAction::Fail(error) => error,
        _ => panic!("the update fails"),
    }
}

fn opened(manifest: &DictionaryManifest) -> Updater {
    let (updater, _) = begin(true).advance(UpdateEvent::StateRead { state: None, now: 5 });
    updater.advance(fetched(manifest)).0
}

fn downloading(manifest: &DictionaryManifest) -> Updater {
    opened(manifest)
        .advance(UpdateEvent::ArchiveOpened { final_url: "https://e/".to_string() })
        .0
}

fn staged(archive: &Vec<u8>) -> Updater {
    let updater = downloading(&manifest_for(archive));
    let (updater, _) = updater.advance(UpdateEvent::Chunk(archive.clone()));
    let (updater, _) = updater.advance(UpdateEvent::EndOfData);
    let (updater, _) = updater.advance(UpdateEvent::Stored { stored: true });
    updater.advance(UpdateEvent::Reread(Some(archive.clone()))).0
}

#[test]
fn whatever_goes_wrong_ends_the_update() {
    let start = || update_dictionary(&settings(), true, false, "d").0;
    let locked = |outcome| error_of(start().advance(UpdateEvent::Locked(outcome)).1);
    assert_eq!(locked(LockOutcome::NoDirectory), UpdateError::DataDirectory);
    assert_eq!(locked(LockOutcome::Failed), UpdateError::Lock);

    let mut plain = settings();
    plain.dictionary_update.manifest_url = "http://example.com".to_string();
    let (updater, _) = update_dictionary(&plain, true, false, "d");
    let (updater, _) = updater.advance(UpdateEvent::Locked(LockOutcome::Held));
    let (_, action) = updater.advance(UpdateEvent::StateRead { state: None, now: 5 });
    assert_eq!(error_of(action), UpdateError::Url(UrlLabel::Manifest));

    let fetching = || begin(true).advance(UpdateEvent::StateRead { state: None, now: 5 }).0;
    assert_eq!(
        error_of(fetching().advance(UpdateEvent::ManifestFailed).1),
        UpdateError::Fetch
    );
    let manifest_event = |url: &str, size: u64, manifest: Option<DictionaryManifest>| {
        error_of(
            fetching()
                .advance(UpdateEvent::ManifestFetched {
                    final_url: url.to_string(),
                    size,
                    manifest,
                })
                .1,
        )
    };
    assert_eq!(
        manifest_event("http://e", 1, Some(good_manifest())),
        UpdateError::Url(UrlLabel::FinalManifest)
    );
    assert_eq!(
        manifest_event("https://e", 65_537, Some(good_manifest())),
        UpdateError::ManifestTooLarge
    );
    assert_eq!(manifest_event("https://e", 65_536, None), UpdateError::ManifestJson);

    let archive = tar_gz(&[("dict.bin", b"dictionary", true)]);
    let manifest = manifest_for(&archive);
    assert_eq!(
        error_of(opened(&manifest).advance(UpdateEvent::DownloadFailed).1),
        UpdateError::Download
    );
    let redirected = UpdateEvent::ArchiveOpened { final_url: "http://e/".to_string() };
    assert_eq!(
        error_of(opened(&manifest).advance(redirected).1),
        UpdateError::Url(UrlLabel::FinalArchive)
    );
    assert_eq!(
        error_of(downloading(&manifest).advance(UpdateEvent::DownloadFailed).1),
        UpdateError::Download
    );
    let mut long = archive.clone();
    long.push(0);
    assert_eq!(
        error_of(downloading(&manifest).advance(UpdateEvent::Chunk(long)).1),
        UpdateError::TooMuchData
    );
    let (updater, _) = downloading(&manifest).advance(UpdateEvent::Chunk(vec![1, 2]));
    assert_eq!(
        error_of(updater.advance(UpdateEvent::EndOfData).1),
        UpdateError::SizeMismatch { expected: manifest.size, actual: 2 }
    );
    let zeros = vec![0; archive.len()];
    let (updater, _) = downloading(&manifest).advance(UpdateEvent::Chunk(zeros));
    assert_eq!(
        error_of(updater.advance(UpdateEvent::EndOfData).1),
        UpdateError::DigestMismatch
    );

    let staged_with = |outcome| error_of(staged(&archive).advance(UpdateEvent::Staged(outcome)).1);
    assert_eq!(staged_with(StageOutcome::Failed), UpdateError::Stage);
    assert_eq!(staged_with(StageOutcome::Invalid), UpdateError::Format);
    let valid = |replaces| UpdateEvent::Staged(StageOutcome::Valid { replaces });
    let (updater, _) = staged(&archive).advance(valid(true));
    assert_eq!(
        error_of(updater.advance(UpdateEvent::BackedUp { done: false }).1),
        UpdateError::Backup
    );
    let (updater, action) = staged(&archive).advance(valid(false));
    assert!(matches!(action, UpdateAction::Replace));
    assert_eq!(
        error_of(updater.advance(UpdateEvent::Replaced { done: false }).1),
        UpdateError::Replace
    );
}

#[test]
fn temporary_names_differ() {
    assert_eq!(
        unique_temp_name("dict.bin", 42, 7, "download"),
        ".dict.bin.42.7.download.tmp"
    );
    assert_ne!(
        unique_temp_name("dict.bin", 42, 7, "state"),
        unique_temp_name("dict.bin", 42, 8, "state")
    );
}

#[test]
fn completed_background_update_is_hot_reloaded() {
    let mut engine = InputMethodEngine::new();
    engine.dictionary_update = true;
    engine.poll_dictionary_update(UpdatePoll::Ended(vec![Ok(BackgroundDictionaryUpdate {
        outcome: DictionaryUpdateOutcome::Updated {
            version: "test-latest".to_string(),
            path: "dict.bin".to_string(),
        },
        dictionary: Some(dictionary("さいしん", "最新")),
    })]));

    let result = engine
        .dicts
        .system
        .as_ref()
        .unwrap()
        .exact_match_search("さいしん")
        .unwrap();
    assert_eq!(result.candidates[0].surface, "最新");
}

#[test]
fn failed_and_late_updates_change_nothing() {
    let mut engine = InputMethodEngine::new();
    engine.dicts.system = Some(dictionary("あ", "亜"));
    engine.dictionary_update = true;
    engine.poll_dictionary_update(UpdatePoll::Pending);
    engine.poll_dictionary_update(UpdatePoll::Ended(vec![
        Err("no network".to_string()),
        Ok(BackgroundDictionaryUpdate {
            outcome: DictionaryUpdateOutcome::UpToDate { version: "v".to_string() },
            dictionary: None,
        }),
    ]));
    assert!(engine.dicts.system.as_ref().unwrap().exact_match_search("あ").is_some());
    engine.poll_dictionary_update(UpdatePoll::Disconnected);
    assert!(!engine.dictionary_update);
}

fn type_key(engine: &mut InputMethodEngine, keysym: u32) -> bool {
    let mut answers = Answers::new();
    loop {
        match engine.process_key(&KeyEvent::press(keysym), &answers) {
            Ok(result) => return result.consumed,
            Err(Question::Type { buffer, ch }) => {
                let (kana, rest) = if buffer == "k" && ch == 'a' {
                    ("か".to_string(), String::new())
                } else {
                    (String::new(), format!("{buffer}{ch}"))
                };
                answers.typed.push(RomajiStep { buffer, ch, kana, rest });
            }
            Err(_) => panic!("typing asks for romaji alone"),
        }
    }
}

fn resources() -> LoadedResources {
    LoadedResources {
        models: LoadedModels { kanji: None, light_kanji: None },
        user: None,
        system: None,
        learning: None,
        updating: false,
    }
}

#[test]
fn completed_async_resources_are_installed_between_keys() {
    let mut engine = InputMethodEngine::new();
    engine.resource_initialization = true;
    assert_eq!(engine.model_name(), "initializing");
    type_key(&mut engine, Keysym::KEY_K);
    type_key(&mut engine, Keysym::KEY_A);
    assert_eq!(engine.input_buf.text, "か");

    engine.poll_resource_initialization(ResourcePoll::Loaded(resources()));

    assert!(!engine.resource_initialization);
    assert_eq!(engine.model_name(), "unknown");
    assert_eq!(engine.input_buf.text, "か");
    assert!(matches!(engine.state(), InputState::Composing { .. }));
}

#[test]
fn dictionaries_that_fail_to_load_are_passed_over() {
    let loads = vec![
        None,
        Some(dictionary("あ", "亜")),
        None,
        Some(dictionary("い", "胃")),
        Some(dictionary("う", "鵜")),
    ];
    let kept: Vec<String> = usable_dictionaries(loads)
        .iter()
        .map(|dictionary| dictionary.entries[0].reading.clone())
        .collect();
    assert_eq!(kept, vec!["あ", "い", "う"]);
    assert!(usable_dictionaries::<Dictionary>(vec![None, None]).is_empty());
    assert!(usable_dictionaries::<Dictionary>(vec![]).is_empty());
    assert!(dictionaries_to_merge::<Dictionary>(vec![None]).is_none());
    let merged = dictionaries_to_merge(vec![None, Some(dictionary("あ", "亜"))]);
    assert_eq!(merged.map(|kept| kept.len()), Some(1));
}

#[test]
fn a_history_starts_empty_unless_one_was_loaded() {
    assert!(starts_empty(HistoryFile::Unknown));
    assert!(starts_empty(HistoryFile::Missing));
    assert!(starts_empty(HistoryFile::Unreadable));
    assert!(!starts_empty(HistoryFile::Loaded));
}

#[test]
fn loaded_resources_take_over() {
    let mut engine = InputMethodEngine::new();
    engine.chunks.push("cached".to_string());
    let mut loaded = resources();
    loaded.models.kanji = Some(ModelHandle { display_name: "m".to_string() });
    loaded.system = Some(dictionary("あ", "亜"));
    loaded.learning = Some(LearningConfig { max_entries: 1, max_surface_chars: 2 });
    loaded.updating = true;
    // Nothing is being loaded, so nothing is taken over.
    engine.poll_resource_initialization(ResourcePoll::Failed);
    assert!(engine.init_from_settings_async(true));
    engine.poll_resource_initialization(ResourcePoll::Pending);
    assert!(engine.resource_initialization);
    engine.poll_resource_initialization(ResourcePoll::Loaded(loaded));
    assert_eq!(engine.model_name(), "m");
    assert!(engine.dicts.system.is_some());
    assert!(engine.learning.is_some());
    assert!(engine.dictionary_update);
    assert!(engine.chunks.is_empty());
    assert!(!engine.wants_async_init());
}

#[test]
fn model_load_failure_does_not_block_rule_based_input() {
    let mut settings = settings();
    settings.conversion.strategy = StrategyMode::Main;
    settings.conversion.model = Some("not-a-real-model".to_string());
    settings.conversion.live_conversion = false;
    settings.learning.enabled = false;
    settings.dictionary_update.enabled = false;

    let config = EngineConfig::from_settings(&settings);
    let mut engine = InputMethodEngine::with_config(config);
    assert!(engine.init_from_settings_async(true));

    type_key(&mut engine, Keysym::KEY_K);
    let consumed = type_key(&mut engine, Keysym::KEY_A);

    assert!(consumed);
    assert_eq!(engine.input_buf.text, "か");

    engine.poll_resource_initialization(ResourcePoll::Failed);
    assert!(!engine.resource_initialization);
    assert_eq!(engine.input_buf.text, "か");
}

fn model(name: &str) -> ModelOutcome {
    ModelOutcome::Loaded(ModelHandle { display_name: name.to_string() })
}

fn named(setting: Option<&str>, id: Option<&str>) -> Option<ResolvedVariant> {
    Some(ResolvedVariant {
        setting: setting.map(str::to_string),
        id: id.map(str::to_string),
    })
}

fn loads(main_outcome: ModelOutcome, light_outcome: ModelOutcome) -> ModelLoads {
    ModelLoads {
        main: named(None, Some("main-id")),
        light: named(None, Some("light-id")),
        default_variant: "default-id".to_string(),
        main_outcome,
        light_outcome,
    }
}

#[test]
fn models_are_loaded_as_the_settings_say() {
    let mut settings = settings();
    settings.conversion.n_threads = 4;
    let mut none = loads(ModelOutcome::Unknown, ModelOutcome::Unknown);
    none.main = None;
    assert!(matches!(
        load_model_converters(&settings, none),
        Err(LoadError::ResolveMain(None))
    ));
    assert!(matches!(
        load_model_converters(&settings, loads(ModelOutcome::Unknown, ModelOutcome::Unknown)),
        Err(LoadError::LoadMain(request))
            if request.variant_id == "main-id" && request.n_threads == Some(4)
    ));
    // A name that is not known: the default model stands in.
    let mut unknown = loads(model("m"), ModelOutcome::Unknown);
    unknown.light = named(None, None);
    assert!(matches!(
        load_model_converters(&settings, unknown),
        Err(LoadError::LoadLight(request)) if request.variant_id == "default-id"
    ));
    // The light model may fail.
    let failed = ModelOutcome::Failed("x".to_string());
    assert!(matches!(
        load_model_converters(&settings, loads(model("m"), failed)),
        Ok(models) if models.kanji.is_some() && models.light_kanji.is_none()
    ));
    assert!(matches!(
        load_model_converters(&settings, loads(model("m"), model("l"))),
        Ok(models) if models.light_kanji.as_ref().unwrap().display_name == "l"
    ));
    let failed = ModelOutcome::Failed("x".to_string());
    assert!(matches!(
        load_model_converters(&settings, loads(failed, model("l"))),
        Err(LoadError::MainModel(reason)) if reason == "x"
    ));

    settings.conversion.strategy = StrategyMode::Light;
    assert!(matches!(
        load_model_converters(&settings, loads(ModelOutcome::Unknown, model("l"))),
        Ok(models) if models.kanji.as_ref().unwrap().display_name == "l"
            && models.light_kanji.is_none()
    ));
    let mut unknown = loads(ModelOutcome::Unknown, ModelOutcome::Unknown);
    unknown.light = named(None, None);
    assert!(matches!(
        load_model_converters(&settings, unknown),
        Err(LoadError::InvalidLightModel)
    ));
    let failed = ModelOutcome::Failed("x".to_string());
    assert!(matches!(
        load_model_converters(&settings, loads(ModelOutcome::Unknown, failed)),
        Err(LoadError::LightModel(_))
    ));

    settings.conversion.strategy = StrategyMode::Main;
    settings.conversion.model = Some("mine".to_string());
    let mut unknown = loads(ModelOutcome::Unknown, ModelOutcome::Unknown);
    unknown.main = named(Some("mine"), None);
    assert!(matches!(
        load_model_converters(&settings, unknown),
        Err(LoadError::InvalidModel)
    ));
    // What another setting names does not help.
    assert!(matches!(
        load_model_converters(&settings, loads(model("m"), ModelOutcome::Unknown)),
        Err(LoadError::ResolveMain(Some(setting))) if setting == "mine"
    ));
}

#[test]
fn converters_are_installed_once() {
    let mut engine = InputMethodEngine::new();
    assert!(matches!(
        engine.init_kanji_converter("default-id", ModelOutcome::Unknown),
        Err(ModelError::Missing(request))
            if request.variant_id == "default-id" && request.n_threads.is_none()
    ));
    assert!(matches!(
        engine.init_kanji_converter_with_model("id", 2, ModelOutcome::Failed("bad".to_string())),
        Err(ModelError::Failed(reason)) if reason == "bad"
    ));
    assert!(engine.init_kanji_converter_with_model("id", 2, model("a")).is_ok());
    assert!(engine.init_kanji_converter_with_model("id", 2, model("b")).is_ok());
    assert_eq!(engine.model_name(), "a");
    assert!(matches!(
        engine.init_light_kanji_converter("light", 2, ModelOutcome::Unknown),
        Err(ModelError::Missing(request)) if request.n_threads == Some(2)
    ));
    assert!(engine.init_light_kanji_converter("light", 2, model("l")).is_ok());
    assert_eq!(threads_label(0), "default");
    assert_eq!(threads_label(12), "12");
}

#[test]
fn dictionaries_are_looked_for_and_installed_once() {
    let mut engine = InputMethodEngine::new();
    assert_eq!(engine.init_system_dictionary(&None, &None, None), None);
    assert_eq!(
        engine.init_system_dictionary(&None, &Some("/data".to_string()), None).as_deref(),
        Some("/data/dict.bin")
    );
    assert_eq!(
        engine.init_system_dictionary(&None, &Some("/data/".to_string()), None).as_deref(),
        Some("/data/dict.bin")
    );
    let own = Some("/own/d.bin".to_string());
    assert_eq!(
        engine.init_system_dictionary(&own, &Some("/data".to_string()), None).as_deref(),
        Some("/own/d.bin")
    );
    assert_eq!(engine.init_system_dictionary(&own, &None, Some(DictionaryFile::Missing)), None);
    assert_eq!(engine.init_system_dictionary(&own, &None, Some(DictionaryFile::Unreadable)), None);
    assert!(engine.dicts.system.is_none());
    let file = DictionaryFile::Loaded(dictionary("あ", "亜"));
    assert_eq!(engine.init_system_dictionary(&own, &None, Some(file)), None);
    let file = DictionaryFile::Loaded(dictionary("い", "胃"));
    engine.init_system_dictionary(&own, &None, Some(file));
    assert!(engine.dicts.system.as_ref().unwrap().exact_match_search("あ").is_some());

    let files = vec!["b.tsv".to_string(), "a.bin".to_string()];
    assert_eq!(engine.user_dictionary_order(files), vec!["a.bin", "b.tsv"]);
    engine.init_user_dictionaries(Some(dictionary("う", "鵜")));
    engine.init_user_dictionaries(None);
    assert!(engine.dicts.user.is_some());
    assert!(engine.user_dictionary_order(vec!["c".to_string()]).is_empty());

    engine.init_learning_cache(false, LearningConfig { max_entries: 1, max_surface_chars: 1 });
    assert!(engine.learning.is_none());
    engine.init_learning_cache(true, LearningConfig { max_entries: 2, max_surface_chars: 2 });
    engine.init_learning_cache(true, LearningConfig { max_entries: 3, max_surface_chars: 3 });
    assert_eq!(engine.learning.unwrap().max_entries, 2);
}

#[test]
fn the_rest_is_ready_although_the_models_fail() {
    let found = || FoundResources {
        data_dir: Some("/data".to_string()),
        system: Some(DictionaryFile::Loaded(dictionary("あ", "亜"))),
        user: Some(dictionary("い", "胃")),
        updating: true,
    };
    let mut engine = InputMethodEngine::new();
    let failed = ModelOutcome::Failed("x".to_string());
    let result =
        engine.init_from_settings(&settings(), found(), loads(failed, ModelOutcome::Unknown));
    assert!(matches!(result, Err(LoadError::MainModel(_))));
    assert!(engine.dicts.system.is_some());
    assert!(engine.dicts.user.is_some());
    assert!(engine.learning.is_some());
    assert!(engine.dictionary_update);
    assert!(engine.converters.kanji.is_none());

    let mut engine = InputMethodEngine::new();
    assert!(engine
        .init_from_settings(&settings(), found(), loads(model("m"), model("l")))
        .is_ok());
    assert_eq!(engine.model_name(), "m");
    assert!(engine.converters.light_kanji.is_some());
}
