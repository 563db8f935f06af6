//! The course of an update of the system dictionary.
//!
//! The updater decides what is done next; the files, the lock and the network
//! are worked on outside, and what came of it is told as an event.

use vstd::prelude::*;
use crate::archive::ArchiveError;
use crate::archive::extract_dictionary;
use crate::archive;
use crate::dictionary_update::{
    DictionaryManifest,
    DictionaryUpdateOutcome,
    DictionaryUpdateState,
    ManifestView,
    OutcomeView,
    UpdateError,
    UpdateStateView,
    UrlLabel,
    MAX_ARCHIVE_BYTES,
    MAX_MANIFEST_BYTES,
};
use crate::dictionary_update::{
    check_is_due,
    interval_seconds,
    validate_https_url,
    validate_manifest,
};
use crate::dictionary_update;
use crate::hash::{eq_ignore_ascii_case, sha256_hex};
use crate::hash;
use crate::settings::{Settings, SettingsView};
use crate::text::same_text;

verus! {

/// What an update goes by.
pub struct UpdatePlan {
    pub force: bool,
    pub manifest_url: String,
    pub interval_seconds: u64,
    pub timeout_seconds: u64,
    /// Where the dictionary belongs.
    pub destination: String,
}

#[verifier::ext_equal]
pub struct PlanView {
    pub force: bool,
    pub manifest_url: Seq<char>,
    pub interval_seconds: u64,
    pub timeout_seconds: u64,
    pub destination: Seq<char>,
}

impl DeepView for UpdatePlan {
    type V = PlanView;

    open spec fn deep_view(&self) -> PlanView {
        PlanView {
            force: self.force,
            manifest_url: self.manifest_url@,
            interval_seconds: self.interval_seconds,
            timeout_seconds: self.timeout_seconds,
            destination: self.destination@,
        }
    }
}

/// Where an update stands: what it waits for.
pub enum UpdatePhase {
    /// The lock against other updates.
    Locking,
    /// What is kept of the last update, and the time.
    Reading,
    /// The manifest.
    Fetching { state: DictionaryUpdateState, now: u64 },
    /// Whether the installed dictionary, which is the published one, can be
    /// used.
    Checking { state: DictionaryUpdateState, now: u64, manifest: DictionaryManifest },
    /// That the check is noted.
    Confirming { manifest: DictionaryManifest },
    /// The answer of the server that has the archive.
    Opening { now: u64, manifest: DictionaryManifest },
    /// More of the archive.
    Downloading { now: u64, manifest: DictionaryManifest, received: Vec<u8> },
    /// That the archive is kept.
    Storing { now: u64, manifest: DictionaryManifest },
    /// The archive as it was kept.
    Rereading { now: u64, manifest: DictionaryManifest },
    /// Whether the unpacked dictionary can be used.
    Staging {
        now: u64,
        manifest: DictionaryManifest,
        archive: Ghost<Seq<u8>>,
        dictionary: Ghost<Seq<u8>>,
    },
    /// That the installed dictionary is backed up.
    BackingUp {
        now: u64,
        manifest: DictionaryManifest,
        archive: Ghost<Seq<u8>>,
        dictionary: Ghost<Seq<u8>>,
    },
    /// That the dictionary is replaced.
    Replacing {
        now: u64,
        manifest: DictionaryManifest,
        archive: Ghost<Seq<u8>>,
        dictionary: Ghost<Seq<u8>>,
    },
    /// That the update is noted.
    Saving { manifest: DictionaryManifest },
    /// Nothing.
    Finished,
}

/// A dictionary on its way: the archive it was unpacked from.
#[verifier::ext_equal]
pub struct Checked {
    pub now: u64,
    pub manifest: ManifestView,
    pub archive: Seq<u8>,
    pub dictionary: Seq<u8>,
}

#[verifier::ext_equal]
pub enum PhaseView {
    Locking,
    Reading,
    Fetching { state: UpdateStateView, now: u64 },
    Checking { state: UpdateStateView, now: u64, manifest: ManifestView },
    Confirming { manifest: ManifestView },
    Opening { now: u64, manifest: ManifestView },
    Downloading { now: u64, manifest: ManifestView, received: Seq<u8> },
    Storing { now: u64, manifest: ManifestView },
    Rereading { now: u64, manifest: ManifestView },
    Staging(Checked),
    BackingUp(Checked),
    Replacing(Checked),
    Saving { manifest: ManifestView },
    Finished,
}

impl DeepView for UpdatePhase {
    type V = PhaseView;

    open spec fn deep_view(&self) -> PhaseView {
        match *self {
            UpdatePhase::Locking => PhaseView::Locking,
            UpdatePhase::Reading => PhaseView::Reading,
            UpdatePhase::Fetching { state, now } => PhaseView::Fetching {
                state: state.deep_view(),
                now,
            },
            UpdatePhase::Checking { state, now, manifest } => PhaseView::Checking {
                state: state.deep_view(),
                now,
                manifest: manifest.deep_view(),
            },
            UpdatePhase::Confirming { manifest } => PhaseView::Confirming {
                manifest: manifest.deep_view(),
            },
            UpdatePhase::Opening { now, manifest } => PhaseView::Opening {
                now,
                manifest: manifest.deep_view(),
            },
            UpdatePhase::Downloading { now, manifest, received } => PhaseView::Downloading {
                now,
                manifest: manifest.deep_view(),
                received: received@,
            },
            UpdatePhase::Storing { now, manifest } => PhaseView::Storing {
                now,
                manifest: manifest.deep_view(),
            },
            UpdatePhase::Rereading { now, manifest } => PhaseView::Rereading {
                now,
                manifest: manifest.deep_view(),
            },
            UpdatePhase::Staging { now, manifest, archive, dictionary } => PhaseView::Staging(
                Checked {
                    now,
                    manifest: manifest.deep_view(),
                    archive: archive@,
                    dictionary: dictionary@,
                },
            ),
            UpdatePhase::BackingUp { now, manifest, archive, dictionary } => PhaseView::BackingUp(
                Checked {
                    now,
                    manifest: manifest.deep_view(),
                    archive: archive@,
                    dictionary: dictionary@,
                },
            ),
            UpdatePhase::Replacing { now, manifest, archive, dictionary } => PhaseView::Replacing(
                Checked {
                    now,
                    manifest: manifest.deep_view(),
                    archive: archive@,
                    dictionary: dictionary@,
                },
            ),
            UpdatePhase::Saving { manifest } => PhaseView::Saving {
                manifest: manifest.deep_view(),
            },
            UpdatePhase::Finished => PhaseView::Finished,
        }
    }
}

/// What came of asking for the lock.
#[derive(Debug, Clone, Copy, PartialEq, Eq, Structural)]
pub enum LockOutcome {
    NoDirectory,
    Failed,
    Busy,
    Held,
}

/// What came of keeping the unpacked dictionary and loading it.
#[derive(Debug, Clone, Copy, PartialEq, Eq, Structural)]
pub enum StageOutcome {
    Failed,
    Invalid,
    /// It can be used; `replaces` tells whether one is installed already.
    Valid { replaces: bool },
}

/// What has happened.
pub enum UpdateEvent {
    Locked(LockOutcome),
    StateRead { state: Option<DictionaryUpdateState>, now: u64 },
    ManifestFailed,
    /// A manifest of `size` bytes, as far as it is one, from `final_url`.
    ManifestFetched { final_url: String, size: u64, manifest: Option<DictionaryManifest> },
    InstalledChecked { usable: bool },
    StateSaved { saved: bool },
    DownloadFailed,
    ArchiveOpened { final_url: String },
    Chunk(Vec<u8>),
    EndOfData,
    Stored { stored: bool },
    Reread(Option<Vec<u8>>),
    Staged(StageOutcome),
    BackedUp { done: bool },
    Replaced { done: bool },
}

#[verifier::ext_equal]
pub enum EventView {
    Locked(LockOutcome),
    StateRead { state: Option<UpdateStateView>, now: u64 },
    ManifestFailed,
    ManifestFetched { final_url: Seq<char>, size: u64, manifest: Option<ManifestView> },
    InstalledChecked { usable: bool },
    StateSaved { saved: bool },
    DownloadFailed,
    ArchiveOpened { final_url: Seq<char> },
    Chunk(Seq<u8>),
    EndOfData,
    Stored { stored: bool },
    Reread(Option<Seq<u8>>),
    Staged(StageOutcome),
    BackedUp { done: bool },
    Replaced { done: bool },
}

impl DeepView for UpdateEvent {
    type V = EventView;

    open spec fn deep_view(&self) -> EventView {
        match *self {
            UpdateEvent::Locked(outcome) => EventView::Locked(outcome),
            UpdateEvent::StateRead { state, now } => EventView::StateRead {
                state: state.deep_view(),
                now,
            },
            UpdateEvent::ManifestFailed => EventView::ManifestFailed,
            UpdateEvent::ManifestFetched { final_url, size, manifest } =>
                EventView::ManifestFetched {
                final_url: final_url@,
                size,
                manifest: manifest.deep_view(),
            },
            UpdateEvent::InstalledChecked { usable } => EventView::InstalledChecked { usable },
            UpdateEvent::StateSaved { saved } => EventView::StateSaved { saved },
            UpdateEvent::DownloadFailed => EventView::DownloadFailed,
            UpdateEvent::ArchiveOpened { final_url } => EventView::ArchiveOpened {
                final_url: final_url@,
            },
            UpdateEvent::Chunk(bytes) => EventView::Chunk(bytes@),
            UpdateEvent::EndOfData => EventView::EndOfData,
            UpdateEvent::Stored { stored } => EventView::Stored { stored },
            UpdateEvent::Reread(bytes) => EventView::Reread(
                match bytes {
                    Some(bytes) => Some(bytes@),
                    None => None,
                },
            ),
            UpdateEvent::Staged(outcome) => EventView::Staged(outcome),
            UpdateEvent::BackedUp { done } => EventView::BackedUp { done },
            UpdateEvent::Replaced { done } => EventView::Replaced { done },
        }
    }
}

/// What is to be done next.
pub enum UpdateAction {
    Lock,
    ReadState,
    FetchManifest { url: String, timeout_seconds: u64 },
    CheckInstalled,
    SaveState(DictionaryUpdateState),
    OpenArchive { url: String },
    ReadChunk,
    StoreArchive(Vec<u8>),
    RereadArchive,
    Stage(Vec<u8>),
    BackUp,
    Replace,
    Finish(DictionaryUpdateOutcome),
    Fail(UpdateError),
    /// What the update waits for is still to come.
    Wait,
}

#[verifier::ext_equal]
pub enum UpdateActionView {
    Lock,
    ReadState,
    FetchManifest { url: Seq<char>, timeout_seconds: u64 },
    CheckInstalled,
    SaveState(UpdateStateView),
    OpenArchive { url: Seq<char> },
    ReadChunk,
    StoreArchive(Seq<u8>),
    RereadArchive,
    Stage(Seq<u8>),
    BackUp,
    Replace,
    Finish(OutcomeView),
    Fail(UpdateError),
    Wait,
}

impl DeepView for UpdateAction {
    type V = UpdateActionView;

    open spec fn deep_view(&self) -> UpdateActionView {
        match *self {
            UpdateAction::Lock => UpdateActionView::Lock,
            UpdateAction::ReadState => UpdateActionView::ReadState,
            UpdateAction::FetchManifest { url, timeout_seconds } =>
                UpdateActionView::FetchManifest { url: url@, timeout_seconds },
            UpdateAction::CheckInstalled => UpdateActionView::CheckInstalled,
            UpdateAction::SaveState(state) => UpdateActionView::SaveState(state.deep_view()),
            UpdateAction::OpenArchive { url } => UpdateActionView::OpenArchive { url: url@ },
            UpdateAction::ReadChunk => UpdateActionView::ReadChunk,
            UpdateAction::StoreArchive(bytes) => UpdateActionView::StoreArchive(bytes@),
            UpdateAction::RereadArchive => UpdateActionView::RereadArchive,
            UpdateAction::Stage(bytes) => UpdateActionView::Stage(bytes@),
            UpdateAction::BackUp => UpdateActionView::BackUp,
            UpdateAction::Replace => UpdateActionView::Replace,
            UpdateAction::Finish(outcome) => UpdateActionView::Finish(outcome.deep_view()),
            UpdateAction::Fail(error) => UpdateActionView::Fail(error),
            UpdateAction::Wait => UpdateActionView::Wait,
        }
    }
}

/// An update that stops, and why.
pub open spec fn failed(error: UpdateError) -> (PhaseView, UpdateActionView) {
    (PhaseView::Finished, UpdateActionView::Fail(error))
}

/// An update that is not made, and why.
pub open spec fn skipped(reason: Seq<char>) -> (PhaseView, UpdateActionView) {
    (PhaseView::Finished, UpdateActionView::Finish(OutcomeView::Skipped { reason }))
}

/// How an update begins. It is not made where the environment or the settings
/// forbid it, unless it is forced, and never over the user's own dictionary.
pub open spec fn begun(settings: SettingsView, force: bool, disabled: bool) -> (
    PhaseView,
    UpdateActionView,
) {
    if disabled {
        skipped("disabled by KARUKAN_DISABLE_DICTIONARY_UPDATE"@)
    } else if !settings.updates && !force {
        skipped("disabled in config.toml"@)
    } else if settings.dict_path is Some {
        skipped("conversion.dict_path is custom; refusing to overwrite it"@)
    } else {
        (PhaseView::Locking, UpdateActionView::Lock)
    }
}

/// Whether what was installed last is what is published.
pub open spec fn is_published(state: UpdateStateView, manifest: ManifestView) -> bool {
    state.installed_version == Some(manifest.version) && state.archive_sha256 == Some(
        manifest.sha256,
    )
}

/// What is kept of an update that was made.
pub open spec fn made(now: u64, manifest: ManifestView) -> UpdateStateView {
    UpdateStateView {
        last_checked_unix: now,
        installed_version: Some(manifest.version),
        archive_sha256: Some(manifest.sha256),
    }
}

/// Whether an archive is the one that a manifest tells of.
pub open spec fn has_digest(archive: Seq<u8>, manifest: ManifestView) -> bool {
    hash::same_ignoring_case(hash::digest_text(archive), manifest.sha256)
}

/// What follows on the manifest.
pub open spec fn after_manifest(
    state: UpdateStateView,
    now: u64,
    final_url: Seq<char>,
    size: u64,
    manifest: Option<ManifestView>,
) -> (PhaseView, UpdateActionView) {
    if !dictionary_update::https_url(final_url) {
        failed(UpdateError::Url(UrlLabel::FinalManifest))
    } else if size > MAX_MANIFEST_BYTES {
        failed(UpdateError::ManifestTooLarge)
    } else {
        match manifest {
            None => failed(UpdateError::ManifestJson),
            Some(manifest) => match dictionary_update::manifest_fault(manifest) {
                Some(error) => failed(error),
                None => if is_published(state, manifest) {
                    (
                        PhaseView::Checking { state, now, manifest },
                        UpdateActionView::CheckInstalled,
                    )
                } else {
                    (
                        PhaseView::Opening { now, manifest },
                        UpdateActionView::OpenArchive { url: manifest.url },
                    )
                },
            },
        }
    }
}

/// What follows on the end of the download.
pub open spec fn after_download(now: u64, manifest: ManifestView, received: Seq<u8>) -> (
    PhaseView,
    UpdateActionView,
) {
    if received.len() != manifest.size {
        failed(
            UpdateError::SizeMismatch {
                expected: manifest.size,
                actual: received.len() as u64,
            },
        )
    } else if !has_digest(received, manifest) {
        failed(UpdateError::DigestMismatch)
    } else {
        (PhaseView::Storing { now, manifest }, UpdateActionView::StoreArchive(received))
    }
}

/// The dictionary of an archive that was kept: the archive is checked once
/// more before it is unpacked.
pub open spec fn verified(archive: Seq<u8>, manifest: ManifestView) -> Result<
    Seq<u8>,
    UpdateError,
> {
    if archive.len() != manifest.size {
        Err(UpdateError::Changed)
    } else if !has_digest(archive, manifest) {
        Err(UpdateError::Revalidation)
    } else {
        match archive::unpacked(archive) {
            Err(error) => Err(UpdateError::Archive(error)),
            Ok(dictionary) => Ok(dictionary),
        }
    }
}

/// What follows on the archive as it was kept.
pub open spec fn after_reread(now: u64, manifest: ManifestView, archive: Seq<u8>) -> (
    PhaseView,
    UpdateActionView,
) {
    match verified(archive, manifest) {
        Err(error) => failed(error),
        Ok(dictionary) => (
            PhaseView::Staging(Checked { now, manifest, archive, dictionary }),
            UpdateActionView::Stage(dictionary),
        ),
    }
}

/// The course of an update: where it stands after an event, and what is to be
/// done next. An event that is not waited for changes nothing.
pub open spec fn advanced(plan: PlanView, phase: PhaseView, event: EventView) -> (
    PhaseView,
    UpdateActionView,
) {
    match (phase, event) {
        (PhaseView::Locking, EventView::Locked(outcome)) => match outcome {
            LockOutcome::NoDirectory => failed(UpdateError::DataDirectory),
            LockOutcome::Failed => failed(UpdateError::Lock),
            LockOutcome::Busy => skipped("another Karukan process is updating the dictionary"@),
            LockOutcome::Held => (PhaseView::Reading, UpdateActionView::ReadState),
        },
        (PhaseView::Reading, EventView::StateRead { state, now }) => {
            let state = match state {
                Some(state) => state,
                None => dictionary_update::no_update_yet(),
            };
            if !plan.force && !dictionary_update::is_due(
                state.last_checked_unix as int,
                now as int,
                plan.interval_seconds as int,
            ) {
                skipped("checked recently"@)
            } else if !dictionary_update::https_url(plan.manifest_url) {
                failed(UpdateError::Url(UrlLabel::Manifest))
            } else {
                (
                    PhaseView::Fetching { state, now },
                    UpdateActionView::FetchManifest {
                        url: plan.manifest_url,
                        timeout_seconds: if plan.timeout_seconds == 0 {
                            1
                        } else {
                            plan.timeout_seconds
                        },
                    },
                )
            }
        },
        (PhaseView::Fetching { .. }, EventView::ManifestFailed) => failed(UpdateError::Fetch),
        (
            PhaseView::Fetching { state, now },
            EventView::ManifestFetched { final_url, size, manifest },
        ) => after_manifest(state, now, final_url, size, manifest),
        (
            PhaseView::Checking { state, now, manifest },
            EventView::InstalledChecked { usable },
        ) => if usable {
            (
                PhaseView::Confirming { manifest },
                UpdateActionView::SaveState(UpdateStateView { last_checked_unix: now, ..state }),
            )
        } else {
            (
                PhaseView::Opening { now, manifest },
                UpdateActionView::OpenArchive { url: manifest.url },
            )
        },
        (PhaseView::Confirming { manifest }, EventView::StateSaved { saved }) => if saved {
            (
                PhaseView::Finished,
                UpdateActionView::Finish(OutcomeView::UpToDate { version: manifest.version }),
            )
        } else {
            failed(UpdateError::State)
        },
        (PhaseView::Opening { .. }, EventView::DownloadFailed) => failed(UpdateError::Download),
        (PhaseView::Opening { now, manifest }, EventView::ArchiveOpened { final_url }) => if
            dictionary_update::https_url(final_url) {
            (
                PhaseView::Downloading { now, manifest, received: Seq::empty() },
                UpdateActionView::ReadChunk,
            )
        } else {
            failed(UpdateError::Url(UrlLabel::FinalArchive))
        },
        (PhaseView::Downloading { .. }, EventView::DownloadFailed) => failed(
            UpdateError::Download,
        ),
        (PhaseView::Downloading { now, manifest, received }, EventView::Chunk(bytes)) => {
            let total = received.len() + bytes.len();
            if total > manifest.size || total > MAX_ARCHIVE_BYTES {
                failed(UpdateError::TooMuchData)
            } else {
                (
                    PhaseView::Downloading { now, manifest, received: received + bytes },
                    UpdateActionView::ReadChunk,
                )
            }
        },
        (
            PhaseView::Downloading { now, manifest, received },
            EventView::EndOfData,
        ) => after_download(now, manifest, received),
        (PhaseView::Storing { now, manifest }, EventView::Stored { stored }) => if stored {
            (PhaseView::Rereading { now, manifest }, UpdateActionView::RereadArchive)
        } else {
            failed(UpdateError::Store)
        },
        (PhaseView::Rereading { now, manifest }, EventView::Reread(bytes)) => match bytes {
            Some(archive) => after_reread(now, manifest, archive),
            None => failed(UpdateError::Store),
        },
        (PhaseView::Staging(checked), EventView::Staged(outcome)) => match outcome {
            StageOutcome::Failed => failed(UpdateError::Stage),
            StageOutcome::Invalid => failed(UpdateError::Format),
            StageOutcome::Valid { replaces } => if replaces {
                (PhaseView::BackingUp(checked), UpdateActionView::BackUp)
            } else {
                (PhaseView::Replacing(checked), UpdateActionView::Replace)
            },
        },
        (PhaseView::BackingUp(checked), EventView::BackedUp { done }) => if done {
            (PhaseView::Replacing(checked), UpdateActionView::Replace)
        } else {
            failed(UpdateError::Backup)
        },
        (PhaseView::Replacing(checked), EventView::Replaced { done }) => if done {
            (
                PhaseView::Saving { manifest: checked.manifest },
                UpdateActionView::SaveState(made(checked.now, checked.manifest)),
            )
        } else {
            failed(UpdateError::Replace)
        },
        (PhaseView::Saving { manifest }, EventView::StateSaved { .. }) => (
            PhaseView::Finished,
            UpdateActionView::Finish(
                OutcomeView::Updated { version: manifest.version, path: plan.destination },
            ),
        ),
        _ => (phase, UpdateActionView::Wait),
    }
}

/// An update and where it stands.
pub struct Updater {
    pub plan: UpdatePlan,
    pub phase: UpdatePhase,
}

fn fail(error: UpdateError) -> (r: (UpdatePhase, UpdateAction))
    ensures
        (r.0.deep_view(), r.1.deep_view()) == failed(error),
{
    (UpdatePhase::Finished, UpdateAction::Fail(error))
}

fn skip(reason: &str) -> (r: (UpdatePhase, UpdateAction))
    ensures
        (r.0.deep_view(), r.1.deep_view()) == skipped(reason@),
{
    (
        UpdatePhase::Finished,
        UpdateAction::Finish(DictionaryUpdateOutcome::Skipped { reason: reason.to_owned() }),
    )
}

fn open(now: u64, manifest: DictionaryManifest) -> (r: (UpdatePhase, UpdateAction))
    ensures
        r.0.deep_view() == (PhaseView::Opening { now, manifest: manifest.deep_view() }),
        r.1.deep_view() == (UpdateActionView::OpenArchive { url: manifest.deep_view().url }),
{
    let url = manifest.url.clone();
    (UpdatePhase::Opening { now, manifest }, UpdateAction::OpenArchive { url })
}

fn holds_text(kept: &Option<String>, text: &String) -> (r: bool)
    ensures
        r == (kept.deep_view() == Some(text@)),
{
    match kept {
        Some(kept) => same_text(kept.as_str(), text.as_str()),
        None => false,
    }
}

fn follow_manifest(
    state: DictionaryUpdateState,
    now: u64,
    final_url: String,
    size: u64,
    manifest: Option<DictionaryManifest>,
) -> (r: (UpdatePhase, UpdateAction))
    ensures
        (r.0.deep_view(), r.1.deep_view()) == after_manifest(
            state.deep_view(),
            now,
            final_url@,
            size,
            manifest.deep_view(),
        ),
{
    if let Err(error) = validate_https_url(final_url.as_str(), UrlLabel::FinalManifest) {
        return fail(error);
    }
    if size > MAX_MANIFEST_BYTES {
        return fail(UpdateError::ManifestTooLarge);
    }
    let manifest = match manifest {
        Some(manifest) => manifest,
        None => return fail(UpdateError::ManifestJson),
    };
    if let Err(error) = validate_manifest(&manifest) {
        return fail(error);
    }
    if holds_text(&state.installed_version, &manifest.version) && holds_text(
        &state.archive_sha256,
        &manifest.sha256,
    ) {
        (UpdatePhase::Checking { state, now, manifest }, UpdateAction::CheckInstalled)
    } else {
        open(now, manifest)
    }
}

fn digest_matches(archive: &Vec<u8>, manifest: &DictionaryManifest) -> (r: bool)
    ensures
        r == has_digest(archive@, manifest.deep_view()),
{
    let actual = sha256_hex(archive);
    eq_ignore_ascii_case(actual.as_str(), manifest.sha256.as_str())
}

/// Checks the end of a download: the archive has the size and the digest that
/// the manifest tells.
fn finish_download(now: u64, manifest: DictionaryManifest, received: Vec<u8>) -> (r: (
    UpdatePhase,
    UpdateAction,
))
    ensures
        (r.0.deep_view(), r.1.deep_view()) == after_download(
            now,
            manifest.deep_view(),
            received@,
        ),
{
    let actual: u64 = received.len() as u64;
    if actual != manifest.size {
        return fail(UpdateError::SizeMismatch { expected: manifest.size, actual });
    }
    if !digest_matches(&received, &manifest) {
        return fail(UpdateError::DigestMismatch);
    }
    (UpdatePhase::Storing { now, manifest }, UpdateAction::StoreArchive(received))
}

/// Checks an archive once more and unpacks the dictionary in it.
pub fn install_verified_archive(archive: &Vec<u8>, manifest: &DictionaryManifest) -> (r: Result<
    Vec<u8>,
    UpdateError,
>)
    ensures
        match r {
            Ok(dictionary) => verified(archive@, manifest.deep_view()) == Ok::<
                Seq<u8>,
                UpdateError,
            >(dictionary@),
            Err(error) => verified(archive@, manifest.deep_view()) == Err::<Seq<u8>, UpdateError>(
                error,
            ),
        },
{
    if archive.len() as u64 != manifest.size {
        return Err(UpdateError::Changed);
    }
    if !digest_matches(archive, manifest) {
        return Err(UpdateError::Revalidation);
    }
    match extract_dictionary(archive) {
        Ok(dictionary) => Ok(dictionary),
        Err(error) => Err(UpdateError::Archive(error)),
    }
}

fn follow_archive(now: u64, manifest: DictionaryManifest, archive: Vec<u8>) -> (r: (
    UpdatePhase,
    UpdateAction,
))
    ensures
        (r.0.deep_view(), r.1.deep_view()) == after_reread(now, manifest.deep_view(), archive@),
{
    match install_verified_archive(&archive, &manifest) {
        Err(error) => fail(error),
        Ok(dictionary) => (
            UpdatePhase::Staging {
                now,
                manifest,
                archive: Ghost(archive@),
                dictionary: Ghost(dictionary@),
            },
            UpdateAction::Stage(dictionary),
        ),
    }
}

/// What an update of the settings goes by.
pub open spec fn plan_of(settings: SettingsView, force: bool, destination: Seq<char>) -> PlanView {
    PlanView {
        force,
        manifest_url: settings.manifest_url,
        interval_seconds: dictionary_update::interval_of(settings.check_interval_hours) as u64,
        timeout_seconds: settings.timeout_seconds,
        destination,
    }
}

/// Begins an update of the dictionary at `destination`; `disabled` tells
/// whether the environment forbids it. A forced update is made although the
/// settings or the interval are against it, but never over the user's own
/// dictionary.
pub fn update_dictionary(
    settings: &Settings,
    force: bool,
    disabled: bool,
    destination: &str,
) -> (r: (Updater, UpdateAction))
    ensures
        r.0.plan.deep_view() == plan_of(settings.deep_view(), force, destination@),
        (r.0.phase.deep_view(), r.1.deep_view()) == begun(settings.deep_view(), force, disabled),
{
    let plan = UpdatePlan {
        force,
        manifest_url: settings.dictionary_update.manifest_url.clone(),
        interval_seconds: interval_seconds(settings.dictionary_update.check_interval_hours),
        timeout_seconds: settings.dictionary_update.timeout_seconds,
        destination: destination.to_owned(),
    };
    let (phase, action) = if disabled {
        skip("disabled by KARUKAN_DISABLE_DICTIONARY_UPDATE")
    } else if !settings.dictionary_update.enabled && !force {
        skip("disabled in config.toml")
    } else if settings.conversion.dict_path.is_some() {
        skip("conversion.dict_path is custom; refusing to overwrite it")
    } else {
        (UpdatePhase::Locking, UpdateAction::Lock)
    };
    (Updater { plan, phase }, action)
}

fn begin_fetch(plan: &UpdatePlan, state: DictionaryUpdateState, now: u64) -> (r: (
    UpdatePhase,
    UpdateAction,
))
    ensures
        (r.0.deep_view(), r.1.deep_view()) == advanced(
            plan.deep_view(),
            PhaseView::Reading,
            EventView::StateRead { state: Some(state.deep_view()), now },
        ),
{
    if !plan.force && !check_is_due(&state, now, plan.interval_seconds) {
        return skip("checked recently");
    }
    if let Err(error) = validate_https_url(plan.manifest_url.as_str(), UrlLabel::Manifest) {
        return fail(error);
    }
    let timeout_seconds: u64 = if plan.timeout_seconds == 0 {
        1
    } else {
        plan.timeout_seconds
    };
    (
        UpdatePhase::Fetching { state, now },
        UpdateAction::FetchManifest { url: plan.manifest_url.clone(), timeout_seconds },
    )
}

fn take_chunk(now: u64, manifest: DictionaryManifest, received: Vec<u8>, bytes: Vec<u8>) -> (r: (
    UpdatePhase,
    UpdateAction,
))
    ensures
        forall|plan: PlanView|
            (r.0.deep_view(), r.1.deep_view()) == #[trigger] advanced(
                plan,
                PhaseView::Downloading {
                    now,
                    manifest: manifest.deep_view(),
                    received: received@,
                },
                EventView::Chunk(bytes@),
            ),
{
    let total: u128 = received.len() as u128 + bytes.len() as u128;
    if total > manifest.size as u128 || total > MAX_ARCHIVE_BYTES as u128 {
        return fail(UpdateError::TooMuchData);
    }
    let mut received = received;
    let mut bytes = bytes;
    received.append(&mut bytes);
    (UpdatePhase::Downloading { now, manifest, received }, UpdateAction::ReadChunk)
}

fn note_update(now: u64, manifest: DictionaryManifest) -> (r: (UpdatePhase, UpdateAction))
    ensures
        r.0.deep_view() == (PhaseView::Saving { manifest: manifest.deep_view() }),
        r.1.deep_view() == UpdateActionView::SaveState(made(now, manifest.deep_view())),
{
    let state = DictionaryUpdateState {
        last_checked_unix: now,
        installed_version: Some(manifest.version.clone()),
        archive_sha256: Some(manifest.sha256.clone()),
    };
    (UpdatePhase::Saving { manifest }, UpdateAction::SaveState(state))
}

fn proceed(plan: &UpdatePlan, phase: UpdatePhase, event: UpdateEvent) -> (r: (
    UpdatePhase,
    UpdateAction,
))
    ensures
        (r.0.deep_view(), r.1.deep_view()) == advanced(
            plan.deep_view(),
            phase.deep_view(),
            event.deep_view(),
        ),
{
    match (phase, event) {
        (UpdatePhase::Locking, UpdateEvent::Locked(outcome)) => match outcome {
            LockOutcome::NoDirectory => fail(UpdateError::DataDirectory),
            LockOutcome::Failed => fail(UpdateError::Lock),
            LockOutcome::Busy => skip("another Karukan process is updating the dictionary"),
            LockOutcome::Held => (UpdatePhase::Reading, UpdateAction::ReadState),
        },
        (UpdatePhase::Reading, UpdateEvent::StateRead { state, now }) => {
            let state: DictionaryUpdateState = match state {
                Some(state) => state,
                None => Default::default(),
            };
            begin_fetch(plan, state, now)
        },
        (UpdatePhase::Fetching { .. }, UpdateEvent::ManifestFailed) => fail(UpdateError::Fetch),
        (
            UpdatePhase::Fetching { state, now },
            UpdateEvent::ManifestFetched { final_url, size, manifest },
        ) => follow_manifest(state, now, final_url, size, manifest),
        (
            UpdatePhase::Checking { state, now, manifest },
            UpdateEvent::InstalledChecked { usable },
        ) => if usable {
            let state = DictionaryUpdateState { last_checked_unix: now, ..state };
            (UpdatePhase::Confirming { manifest }, UpdateAction::SaveState(state))
        } else {
            open(now, manifest)
        },
        (UpdatePhase::Confirming { manifest }, UpdateEvent::StateSaved { saved }) => if saved {
            (
                UpdatePhase::Finished,
                UpdateAction::Finish(
                    DictionaryUpdateOutcome::UpToDate { version: manifest.version },
                ),
            )
        } else {
            fail(UpdateError::State)
        },
        (UpdatePhase::Opening { .. }, UpdateEvent::DownloadFailed) => fail(UpdateError::Download),
        (UpdatePhase::Opening { now, manifest }, UpdateEvent::ArchiveOpened { final_url }) => {
            match validate_https_url(final_url.as_str(), UrlLabel::FinalArchive) {
                Ok(()) => (
                    UpdatePhase::Downloading { now, manifest, received: Vec::new() },
                    UpdateAction::ReadChunk,
                ),
                Err(error) => fail(error),
            }
        },
        (UpdatePhase::Downloading { .. }, UpdateEvent::DownloadFailed) => fail(
            UpdateError::Download,
        ),
        (UpdatePhase::Downloading { now, manifest, received }, UpdateEvent::Chunk(bytes)) => {
            take_chunk(now, manifest, received, bytes)
        },
        (UpdatePhase::Downloading { now, manifest, received }, UpdateEvent::EndOfData) => {
            finish_download(now, manifest, received)
        },
        (UpdatePhase::Storing { now, manifest }, UpdateEvent::Stored { stored }) => if stored {
            (UpdatePhase::Rereading { now, manifest }, UpdateAction::RereadArchive)
        } else {
            fail(UpdateError::Store)
        },
        (UpdatePhase::Rereading { now, manifest }, UpdateEvent::Reread(bytes)) => match bytes {
            Some(archive) => follow_archive(now, manifest, archive),
            None => fail(UpdateError::Store),
        },
        (
            UpdatePhase::Staging { now, manifest, archive, dictionary },
            UpdateEvent::Staged(outcome),
        ) => match outcome {
            StageOutcome::Failed => fail(UpdateError::Stage),
            StageOutcome::Invalid => fail(UpdateError::Format),
            StageOutcome::Valid { replaces } => if replaces {
                (
                    UpdatePhase::BackingUp { now, manifest, archive, dictionary },
                    UpdateAction::BackUp,
                )
            } else {
                (
                    UpdatePhase::Replacing { now, manifest, archive, dictionary },
                    UpdateAction::Replace,
                )
            },
        },
        (
            UpdatePhase::BackingUp { now, manifest, archive, dictionary },
            UpdateEvent::BackedUp { done },
        ) => if done {
            (
                UpdatePhase::Replacing { now, manifest, archive, dictionary },
                UpdateAction::Replace,
            )
        } else {
            fail(UpdateError::Backup)
        },
        (UpdatePhase::Replacing { now, manifest, .. }, UpdateEvent::Replaced { done }) => if done {
            note_update(now, manifest)
        } else {
            fail(UpdateError::Replace)
        },
        (UpdatePhase::Saving { manifest }, UpdateEvent::StateSaved { .. }) => (
            UpdatePhase::Finished,
            UpdateAction::Finish(
                DictionaryUpdateOutcome::Updated {
                    version: manifest.version,
                    path: plan.destination.clone(),
                },
            ),
        ),
        (phase, _) => (phase, UpdateAction::Wait),
    }
}

impl Updater {
    /// Takes note of what has happened and says what is to be done next.
    pub fn advance(self, event: UpdateEvent) -> (r: (Updater, UpdateAction))
        ensures
            r.0.plan == self.plan,
            (r.0.phase.deep_view(), r.1.deep_view()) == advanced(
                self.plan.deep_view(),
                self.phase.deep_view(),
                event.deep_view(),
            ),
    {
        let plan = self.plan;
        let (phase, action) = proceed(&plan, self.phase, event);
        (Updater { plan, phase }, action)
    }
}

/// A dictionary on its way that passed every check: its manifest can be
/// followed, and its archive has the size and the digest that the manifest
/// tells and holds it.
pub open spec fn sound_dictionary(c: Checked) -> bool {
    &&& dictionary_update::manifest_fault(c.manifest) is None
    &&& c.archive.len() == c.manifest.size
    &&& has_digest(c.archive, c.manifest)
    &&& archive::unpacked(c.archive) == Ok::<Seq<u8>, ArchiveError>(c.dictionary)
}

/// What holds wherever an update stands.
pub open spec fn sound(phase: PhaseView) -> bool {
    match phase {
        PhaseView::Checking { state, manifest, .. } => dictionary_update::manifest_fault(manifest)
            is None && is_published(state, manifest),
        PhaseView::Opening { manifest, .. } => dictionary_update::manifest_fault(manifest) is None,
        PhaseView::Downloading { manifest, received, .. } => dictionary_update::manifest_fault(
            manifest,
        ) is None && received.len() <= manifest.size,
        PhaseView::Storing { manifest, .. } => dictionary_update::manifest_fault(manifest) is None,
        PhaseView::Rereading { manifest, .. } => dictionary_update::manifest_fault(manifest)
            is None,
        PhaseView::Staging(checked) => sound_dictionary(checked),
        PhaseView::BackingUp(checked) => sound_dictionary(checked),
        PhaseView::Replacing(checked) => sound_dictionary(checked),
        _ => true,
    }
}

/// Every update stands on sound ground from its beginning to its end.
pub proof fn law_updates_stay_sound(plan: PlanView, phase: PhaseView, event: EventView)
    requires
        sound(phase),
    ensures
        sound(advanced(plan, phase, event).0),
{
}

/// An update begins on sound ground.
pub proof fn law_updates_begin_sound(settings: SettingsView, force: bool, disabled: bool)
    ensures
        sound(begun(settings, force, disabled).0),
{
}

/// The installed dictionary is replaced only by one that was unpacked from an
/// archive of the size and the digest that the manifest tells, that could be
/// loaded, and after a backup where one is installed already.
pub proof fn law_only_a_verified_dictionary_replaces(
    plan: PlanView,
    phase: PhaseView,
    event: EventView,
)
    requires
        sound(phase),
        advanced(plan, phase, event).1 == UpdateActionView::Replace,
    ensures
        ({
            ||| phase matches PhaseView::Staging(checked) && sound_dictionary(checked) && event
                == EventView::Staged(StageOutcome::Valid { replaces: false })
            ||| phase matches PhaseView::BackingUp(checked) && sound_dictionary(checked) && event
                == (EventView::BackedUp { done: true })
        }),
{
}

/// A backup is made only of a dictionary that is about to be replaced by one
/// that could be loaded.
pub proof fn law_a_backup_follows_a_loadable_dictionary(
    plan: PlanView,
    phase: PhaseView,
    event: EventView,
)
    requires
        !(phase is BackingUp),
        advanced(plan, phase, event).0 is BackingUp,
    ensures
        phase is Staging,
        event == EventView::Staged(StageOutcome::Valid { replaces: true }),
        advanced(plan, phase, event).1 == UpdateActionView::BackUp,
{
}

/// What is unpacked for the dictionary is what its archive holds.
pub proof fn law_only_what_was_unpacked_is_staged(
    plan: PlanView,
    phase: PhaseView,
    event: EventView,
    bytes: Seq<u8>,
)
    requires
        sound(phase),
        advanced(plan, phase, event).1 == UpdateActionView::Stage(bytes),
    ensures
        advanced(plan, phase, event).0 matches PhaseView::Staging(checked) && checked.dictionary
            == bytes && sound_dictionary(checked),
{
}

/// The user's own dictionary is never updated, forced or not.
pub proof fn law_custom_dictionaries_are_never_updated(
    settings: SettingsView,
    force: bool,
    disabled: bool,
)
    requires
        settings.dict_path is Some,
    ensures
        ({
            let (phase, action) = begun(settings, force, disabled);
            phase is Finished && (action matches UpdateActionView::Finish(
                OutcomeView::Skipped { .. },
            ))
        }),
{
}

/// An update that ended stays ended.
pub proof fn law_finished_updates_do_nothing(plan: PlanView, event: EventView)
    ensures
        advanced(plan, PhaseView::Finished, event) == (
            PhaseView::Finished,
            UpdateActionView::Wait,
        ),
{
}

/// What is noted after an update makes the next check find the published
/// dictionary installed, for as long as the same one is published.
pub proof fn law_an_update_is_found_installed(now: u64, later: u64, manifest: ManifestView)
    requires
        dictionary_update::manifest_fault(manifest) is None,
    ensures
        forall|url: Seq<char>, size: u64|
            dictionary_update::https_url(url) && size <= MAX_MANIFEST_BYTES
                ==> (#[trigger] after_manifest(
                made(now, manifest),
                later,
                url,
                size,
                Some(manifest),
            )).1 == UpdateActionView::CheckInstalled,
{
}

} // verus!
