//! Updates of the published system dictionary.
//!
//! A small manifest is fetched first, then the archive that it names. Size,
//! SHA-256, the structure of the archive and the format of the dictionary are
//! all checked before the installed `dict.bin` is replaced.

use vstd::prelude::*;
use vstd::string::*;
use crate::archive::ArchiveError;
use crate::dictionary::{Dictionary, EntryView};
use crate::hash::is_digest;
use crate::hash;
use crate::settings::{Settings, SettingsView};
use crate::text::{chars_of, decimal, joined};
use crate::text;

verus! {

/// The version of the layout of manifests.
pub const MANIFEST_SCHEMA_VERSION: u32 = 1;

/// The greatest size of a manifest: 64 KiB.
pub const MAX_MANIFEST_BYTES: u64 = 65_536;

/// The greatest size of an archive: 256 MiB.
pub const MAX_ARCHIVE_BYTES: u64 = 268_435_456;

/// The greatest length of the name of a version, in bytes.
pub const MAX_VERSION_BYTES: usize = 128;

/// How a dictionary is packed.
#[derive(Debug, Clone, Copy, PartialEq, Eq, Structural)]
pub enum DictionaryArchive {
    TarGzip,
}

/// What is published of one packed dictionary.
pub struct DictionaryManifest {
    pub schema_version: u32,
    pub version: String,
    /// The release it was made from, where that is known.
    pub source_version: Option<String>,
    pub url: String,
    pub sha256: String,
    pub size: u64,
    pub archive: DictionaryArchive,
}

#[verifier::ext_equal]
pub struct ManifestView {
    pub schema_version: u32,
    pub version: Seq<char>,
    pub source_version: Option<Seq<char>>,
    pub url: Seq<char>,
    pub sha256: Seq<char>,
    pub size: u64,
    pub archive: DictionaryArchive,
}

impl DeepView for DictionaryManifest {
    type V = ManifestView;

    open spec fn deep_view(&self) -> ManifestView {
        ManifestView {
            schema_version: self.schema_version,
            version: self.version@,
            source_version: self.source_version.deep_view(),
            url: self.url@,
            sha256: self.sha256@,
            size: self.size,
            archive: self.archive,
        }
    }
}

impl Clone for DictionaryManifest {
    fn clone(&self) -> (r: Self)
        ensures
            r.deep_view() == self.deep_view(),
    {
        DictionaryManifest {
            schema_version: self.schema_version,
            version: self.version.clone(),
            source_version: self.source_version.clone(),
            url: self.url.clone(),
            sha256: self.sha256.clone(),
            size: self.size,
            archive: self.archive,
        }
    }
}

/// What is kept of the last update.
pub struct DictionaryUpdateState {
    pub last_checked_unix: u64,
    pub installed_version: Option<String>,
    pub archive_sha256: Option<String>,
}

#[verifier::ext_equal]
pub struct UpdateStateView {
    pub last_checked_unix: u64,
    pub installed_version: Option<Seq<char>>,
    pub archive_sha256: Option<Seq<char>>,
}

impl DeepView for DictionaryUpdateState {
    type V = UpdateStateView;

    open spec fn deep_view(&self) -> UpdateStateView {
        UpdateStateView {
            last_checked_unix: self.last_checked_unix,
            installed_version: self.installed_version.deep_view(),
            archive_sha256: self.archive_sha256.deep_view(),
        }
    }
}

/// What is kept where there was no update yet.
pub open spec fn no_update_yet() -> UpdateStateView {
    UpdateStateView { last_checked_unix: 0, installed_version: None, archive_sha256: None }
}

impl Default for DictionaryUpdateState {
    fn default() -> (r: Self)
        ensures
            r.deep_view() == no_update_yet(),
    {
        DictionaryUpdateState {
            last_checked_unix: 0,
            installed_version: None,
            archive_sha256: None,
        }
    }
}

/// What came of an update.
pub enum DictionaryUpdateOutcome {
    Updated { version: String, path: String },
    UpToDate { version: String },
    Skipped { reason: String },
}

#[verifier::ext_equal]
pub enum OutcomeView {
    Updated { version: Seq<char>, path: Seq<char> },
    UpToDate { version: Seq<char> },
    Skipped { reason: Seq<char> },
}

impl DeepView for DictionaryUpdateOutcome {
    type V = OutcomeView;

    open spec fn deep_view(&self) -> OutcomeView {
        match *self {
            DictionaryUpdateOutcome::Updated { version, path } => OutcomeView::Updated {
                version: version@,
                path: path@,
            },
            DictionaryUpdateOutcome::UpToDate { version } => OutcomeView::UpToDate {
                version: version@,
            },
            DictionaryUpdateOutcome::Skipped { reason } => OutcomeView::Skipped { reason: reason@ },
        }
    }
}

/// What came of an update, in words.
pub open spec fn outcome_text(outcome: OutcomeView) -> Seq<char> {
    match outcome {
        OutcomeView::Updated { version, path } => "updated to "@ + version + ": "@ + path,
        OutcomeView::UpToDate { version } => "already up to date: "@ + version,
        OutcomeView::Skipped { reason } => "skipped: "@ + reason,
    }
}

impl DictionaryUpdateOutcome {
    /// What came of the update, in words.
    pub fn to_text(&self) -> (r: String)
        ensures
            r@ == outcome_text(self.deep_view()),
    {
        match self {
            DictionaryUpdateOutcome::Updated { version, path } => {
                let start = joined("updated to ", version.as_str());
                let middle = joined(start.as_str(), ": ");
                joined(middle.as_str(), path.as_str())
            },
            DictionaryUpdateOutcome::UpToDate { version } => joined(
                "already up to date: ",
                version.as_str(),
            ),
            DictionaryUpdateOutcome::Skipped { reason } => joined("skipped: ", reason.as_str()),
        }
    }
}

/// A finished check in the background, and the dictionary if there is a new
/// one.
pub struct BackgroundDictionaryUpdate {
    pub outcome: DictionaryUpdateOutcome,
    pub dictionary: Option<Dictionary>,
}

#[verifier::ext_equal]
pub struct BackgroundView {
    pub outcome: OutcomeView,
    pub dictionary: Option<Seq<EntryView>>,
}

impl DeepView for BackgroundDictionaryUpdate {
    type V = BackgroundView;

    open spec fn deep_view(&self) -> BackgroundView {
        BackgroundView {
            outcome: self.outcome.deep_view(),
            dictionary: self.dictionary.deep_view(),
        }
    }
}

/// Whether Unicode counts a character as white space.
pub open spec fn white_space(c: char) -> bool {
    let n = c as int;
    ||| 0x09 <= n <= 0x0d
    ||| n == 0x20
    ||| n == 0x85
    ||| n == 0xa0
    ||| n == 0x1680
    ||| 0x2000 <= n <= 0x200a
    ||| n == 0x2028
    ||| n == 0x2029
    ||| n == 0x202f
    ||| n == 0x205f
    ||| n == 0x3000
}

/// Whether Unicode counts a character as white space.
pub fn is_white_space(c: char) -> (r: bool)
    ensures
        r == white_space(c),
{
    '\u{9}' <= c && c <= '\u{d}' || c == ' ' || c == '\u{85}' || c == '\u{a0}' || c == '\u{1680}'
        || '\u{2000}' <= c && c <= '\u{200a}' || c == '\u{2028}' || c == '\u{2029}' || c
        == '\u{202f}' || c == '\u{205f}' || c == '\u{3000}'
}

/// Whether a text has no character but white space.
pub open spec fn blank(text: Seq<char>) -> bool {
    forall|i: int| 0 <= i < text.len() ==> white_space(#[trigger] text[i])
}

/// Whether a text has white space in it.
pub open spec fn has_white_space(text: Seq<char>) -> bool {
    exists|i: int| 0 <= i < text.len() && white_space(#[trigger] text[i])
}

/// Whether an address is one of the web with encryption, without white space.
pub open spec fn https_url(url: Seq<char>) -> bool {
    "https://"@.is_prefix_of(url) && !has_white_space(url)
}

fn is_blank(text: &str) -> (r: bool)
    ensures
        r == blank(text@),
{
    let chars = chars_of(text);
    let mut i: usize = 0;
    while i < chars.len()
        invariant
            i <= chars@.len(),
            chars@ == text@,
            forall|k: int| 0 <= k < i ==> white_space(#[trigger] text@[k]),
        decreases chars@.len() - i,
    {
        if !is_white_space(chars[i]) {
            assert(!white_space(text@[i as int]));
            return false;
        }
        i = i + 1;
    }
    true
}

fn holds_white_space(text: &str) -> (r: bool)
    ensures
        r == has_white_space(text@),
{
    let chars = chars_of(text);
    let mut i: usize = 0;
    while i < chars.len()
        invariant
            i <= chars@.len(),
            chars@ == text@,
            forall|k: int| 0 <= k < i ==> !white_space(#[trigger] text@[k]),
        decreases chars@.len() - i,
    {
        if is_white_space(chars[i]) {
            assert(white_space(text@[i as int]));
            return true;
        }
        i = i + 1;
    }
    false
}

fn begins_with(text: &str, start: &str) -> (r: bool)
    ensures
        r == start@.is_prefix_of(text@),
{
    let t = chars_of(text);
    let s = chars_of(start);
    if s.len() > t.len() {
        return false;
    }
    let mut i: usize = 0;
    while i < s.len()
        invariant
            i <= s@.len(),
            s@.len() <= t@.len(),
            s@ == start@,
            t@ == text@,
            forall|k: int| 0 <= k < i ==> s@[k] == t@[k],
        decreases s@.len() - i,
    {
        if s[i] != t[i] {
            assert(start@[i as int] != text@.subrange(0, start@.len() as int)[i as int]);
            return false;
        }
        i = i + 1;
    }
    assert(start@ =~= text@.subrange(0, start@.len() as int));
    true
}

/// What an address is of.
#[derive(Debug, Clone, Copy, PartialEq, Eq, Structural)]
pub enum UrlLabel {
    Manifest,
    FinalManifest,
    Archive,
    FinalArchive,
}

/// Refuses an address that is not one of the web with encryption.
pub fn validate_https_url(url: &str, label: UrlLabel) -> (r: Result<(), UpdateError>)
    ensures
        https_url(url@) ==> r is Ok,
        !https_url(url@) ==> r == Err::<(), UpdateError>(UpdateError::Url(label)),
{
    if !begins_with(url, "https://") || holds_white_space(url) {
        Err(UpdateError::Url(label))
    } else {
        Ok(())
    }
}

/// Why an update was given up.
#[derive(Debug, Clone, Copy, PartialEq, Eq, Structural)]
pub enum UpdateError {
    /// It is not known where the dictionary belongs, or it cannot be made.
    DataDirectory,
    /// The lock against other updates could not be had.
    Lock,
    Url(UrlLabel),
    /// The manifest could not be fetched.
    Fetch,
    ManifestTooLarge,
    ManifestJson,
    Schema(u32),
    Version,
    Size(u64),
    Digest,
    /// The archive could not be fetched.
    Download,
    TooMuchData,
    SizeMismatch { expected: u64, actual: u64 },
    DigestMismatch,
    /// The archive could not be kept or read again.
    Store,
    Changed,
    Revalidation,
    Archive(ArchiveError),
    /// The unpacked dictionary could not be kept.
    Stage,
    /// The unpacked dictionary is not a dictionary.
    Format,
    Backup,
    Replace,
    /// What is kept of the update could not be written.
    State,
}

/// What an address is of, in words.
pub open spec fn label_text(label: UrlLabel) -> Seq<char> {
    match label {
        UrlLabel::Manifest => "dictionary manifest"@,
        UrlLabel::FinalManifest => "final dictionary manifest"@,
        UrlLabel::Archive => "dictionary archive"@,
        UrlLabel::FinalArchive => "final dictionary archive"@,
    }
}

/// Why an update was given up, in words.
pub open spec fn error_text(error: UpdateError) -> Seq<char> {
    match error {
        UpdateError::DataDirectory => "could not determine the Karukan data directory"@,
        UpdateError::Lock => "failed to lock the system dictionary updater"@,
        UpdateError::Url(label) => label_text(label) + " URL must use HTTPS"@,
        UpdateError::Fetch => "failed to fetch dictionary manifest"@,
        UpdateError::ManifestTooLarge => "dictionary manifest is too large"@,
        UpdateError::ManifestJson => "invalid dictionary manifest JSON"@,
        UpdateError::Schema(n) => "unsupported dictionary manifest schema "@ + text::decimal_text(
            n as nat,
        ),
        UpdateError::Version => "invalid dictionary version"@,
        UpdateError::Size(n) => "invalid dictionary archive size: "@ + text::decimal_text(n as nat),
        UpdateError::Digest => "invalid dictionary archive SHA-256"@,
        UpdateError::Download => "dictionary download failed"@,
        UpdateError::TooMuchData => "dictionary archive exceeded its declared size"@,
        UpdateError::SizeMismatch { expected, actual } =>
            "dictionary archive size mismatch: expected "@ + text::decimal_text(expected as nat)
            + ", got "@ + text::decimal_text(actual as nat),
        UpdateError::DigestMismatch => "dictionary archive SHA-256 mismatch"@,
        UpdateError::Store => "failed to keep the dictionary archive"@,
        UpdateError::Changed => "downloaded archive changed before installation"@,
        UpdateError::Revalidation => "downloaded archive failed SHA-256 revalidation"@,
        UpdateError::Archive(ArchiveError::Unreadable) =>
            "failed to read dictionary archive entry"@,
        UpdateError::Archive(ArchiveError::BadPath) => "invalid dictionary archive path"@,
        UpdateError::Archive(ArchiveError::InvalidEntry) =>
            "dictionary archive contains an invalid dict.bin entry"@,
        UpdateError::Archive(ArchiveError::TooLarge) => "extracted dictionary is too large"@,
        UpdateError::Archive(ArchiveError::Missing) =>
            "dictionary archive does not contain dict.bin"@,
        UpdateError::Stage => "failed to keep the extracted dictionary"@,
        UpdateError::Format => "downloaded dict.bin is invalid"@,
        UpdateError::Backup => "failed to back up the installed dictionary"@,
        UpdateError::Replace => "failed to replace the installed dictionary"@,
        UpdateError::State => "failed to save the dictionary update state"@,
    }
}

impl UpdateError {
    /// Why the update was given up, in words.
    pub fn to_text(&self) -> (r: String)
        ensures
            r@ == error_text(*self),
    {
        match *self {
            UpdateError::DataDirectory => {
                "could not determine the Karukan data directory".to_owned()
            },
            UpdateError::Lock => "failed to lock the system dictionary updater".to_owned(),
            UpdateError::Url(label) => {
                let what: &str = match label {
                    UrlLabel::Manifest => "dictionary manifest",
                    UrlLabel::FinalManifest => "final dictionary manifest",
                    UrlLabel::Archive => "dictionary archive",
                    UrlLabel::FinalArchive => "final dictionary archive",
                };
                joined(what, " URL must use HTTPS")
            },
            UpdateError::Fetch => "failed to fetch dictionary manifest".to_owned(),
            UpdateError::ManifestTooLarge => "dictionary manifest is too large".to_owned(),
            UpdateError::ManifestJson => "invalid dictionary manifest JSON".to_owned(),
            UpdateError::Schema(n) => joined(
                "unsupported dictionary manifest schema ",
                decimal(n as u64).as_str(),
            ),
            UpdateError::Version => "invalid dictionary version".to_owned(),
            UpdateError::Size(n) => joined(
                "invalid dictionary archive size: ",
                decimal(n).as_str(),
            ),
            UpdateError::Digest => "invalid dictionary archive SHA-256".to_owned(),
            UpdateError::Download => "dictionary download failed".to_owned(),
            UpdateError::TooMuchData => "dictionary archive exceeded its declared size".to_owned(),
            UpdateError::SizeMismatch { expected, actual } => {
                let start = joined(
                    "dictionary archive size mismatch: expected ",
                    decimal(expected).as_str(),
                );
                let middle = joined(start.as_str(), ", got ");
                joined(middle.as_str(), decimal(actual).as_str())
            },
            UpdateError::DigestMismatch => "dictionary archive SHA-256 mismatch".to_owned(),
            UpdateError::Store => "failed to keep the dictionary archive".to_owned(),
            UpdateError::Changed => "downloaded archive changed before installation".to_owned(),
            UpdateError::Revalidation => {
                "downloaded archive failed SHA-256 revalidation".to_owned()
            },
            UpdateError::Archive(ArchiveError::Unreadable) => {
                "failed to read dictionary archive entry".to_owned()
            },
            UpdateError::Archive(ArchiveError::BadPath) => {
                "invalid dictionary archive path".to_owned()
            },
            UpdateError::Archive(ArchiveError::InvalidEntry) => {
                "dictionary archive contains an invalid dict.bin entry".to_owned()
            },
            UpdateError::Archive(ArchiveError::TooLarge) => {
                "extracted dictionary is too large".to_owned()
            },
            UpdateError::Archive(ArchiveError::Missing) => {
                "dictionary archive does not contain dict.bin".to_owned()
            },
            UpdateError::Stage => "failed to keep the extracted dictionary".to_owned(),
            UpdateError::Format => "downloaded dict.bin is invalid".to_owned(),
            UpdateError::Backup => "failed to back up the installed dictionary".to_owned(),
            UpdateError::Replace => "failed to replace the installed dictionary".to_owned(),
            UpdateError::State => "failed to save the dictionary update state".to_owned(),
        }
    }
}

/// The length of a text in bytes.
pub open spec fn byte_len(text: Seq<char>) -> nat {
    vstd::utf8::encode_utf8(text).len()
}

/// What is wrong with a manifest, if anything: the first thing that is.
pub open spec fn manifest_fault(m: ManifestView) -> Option<UpdateError> {
    if m.schema_version != MANIFEST_SCHEMA_VERSION {
        Some(UpdateError::Schema(m.schema_version))
    } else if blank(m.version) || byte_len(m.version) > MAX_VERSION_BYTES {
        Some(UpdateError::Version)
    } else if !https_url(m.url) {
        Some(UpdateError::Url(UrlLabel::Archive))
    } else if m.size == 0 || m.size > MAX_ARCHIVE_BYTES {
        Some(UpdateError::Size(m.size))
    } else if !hash::digest_like(m.sha256) {
        Some(UpdateError::Digest)
    } else {
        None
    }
}

/// Refuses a manifest that cannot be followed.
pub fn validate_manifest(manifest: &DictionaryManifest) -> (r: Result<(), UpdateError>)
    ensures
        match r {
            Ok(()) => manifest_fault(manifest.deep_view()) is None,
            Err(error) => manifest_fault(manifest.deep_view()) == Some(error),
        },
{
    if manifest.schema_version != MANIFEST_SCHEMA_VERSION {
        return Err(UpdateError::Schema(manifest.schema_version));
    }
    if is_blank(manifest.version.as_str()) || manifest.version.as_str().as_bytes().len()
        > MAX_VERSION_BYTES {
        return Err(UpdateError::Version);
    }
    if let Err(error) = validate_https_url(manifest.url.as_str(), UrlLabel::Archive) {
        return Err(error);
    }
    if manifest.size == 0 || manifest.size > MAX_ARCHIVE_BYTES {
        return Err(UpdateError::Size(manifest.size));
    }
    if !is_digest(manifest.sha256.as_str()) {
        return Err(UpdateError::Digest);
    }
    Ok(())
}

/// Whether it is time for a check: there was none yet, the clock went back,
/// or the interval is over.
pub open spec fn is_due(last_checked: int, now: int, interval_seconds: int) -> bool {
    last_checked == 0 || now < last_checked || now - last_checked >= interval_seconds
}

/// Whether it is time for a check.
pub fn check_is_due(state: &DictionaryUpdateState, now: u64, interval_seconds: u64) -> (r: bool)
    ensures
        r == is_due(
            state.deep_view().last_checked_unix as int,
            now as int,
            interval_seconds as int,
        ),
{
    state.last_checked_unix == 0 || now < state.last_checked_unix || now - state.last_checked_unix
        >= interval_seconds
}

/// The interval of the settings in seconds, as far as it can be counted.
pub open spec fn interval_of(hours: u64) -> int {
    if hours * 3600 <= u64::MAX {
        hours * 3600
    } else {
        u64::MAX as int
    }
}

/// The interval of the settings in seconds, as far as it can be counted.
pub fn interval_seconds(hours: u64) -> (r: u64)
    ensures
        r == interval_of(hours),
{
    match hours.checked_mul(3600) {
        Some(seconds) => seconds,
        None => u64::MAX,
    }
}

/// The seconds between two looks at whether a check is due: at most an hour,
/// and a day where every start of the program checks.
pub open spec fn poll_seconds(hours: u64) -> int {
    if hours == 0 {
        86400
    } else if interval_of(hours) < 3600 {
        interval_of(hours)
    } else {
        3600
    }
}

/// The seconds between two looks at whether a check is due.
pub fn background_poll_interval(settings: &Settings) -> (r: u64)
    ensures
        r == poll_seconds(settings.deep_view().check_interval_hours),
{
    let configured: u64 = interval_seconds(settings.dictionary_update.check_interval_hours);
    if configured == 0 {
        86400
    } else if configured < 3600 {
        configured
    } else {
        3600
    }
}

/// Whether updates run in the background: they are wanted, and the dictionary
/// is not the user's own.
pub open spec fn runs_in_background(settings: SettingsView, disabled: bool) -> bool {
    settings.updates && settings.dict_path is None && !disabled
}

/// Whether updates run in the background; `disabled` tells whether the
/// environment forbids them.
pub fn spawn_background_update(settings: &Settings, disabled: bool) -> (r: bool)
    ensures
        r == runs_in_background(settings.deep_view(), disabled),
{
    settings.dictionary_update.enabled && settings.conversion.dict_path.is_none() && !disabled
}

/// Looking for updates is never a tight loop, and never rarer than once a day.
pub proof fn law_polling_is_bounded(hours: u64)
    ensures
        1 <= poll_seconds(hours) <= 86400,
        hours > 0 ==> poll_seconds(hours) == 3600,
{
    assert(hours > 0 ==> hours * 3600 >= 3600);
}

/// A clock that went back never puts a check off.
pub proof fn law_a_clock_that_went_back_is_due(last_checked: int, now: int, interval_seconds: int)
    requires
        now < last_checked,
    ensures
        is_due(last_checked, now, interval_seconds),
{
}

/// The name of a file beside `name` that is in the making.
pub open spec fn temp_name(
    name: Seq<char>,
    process: u32,
    sequence: u64,
    purpose: Seq<char>,
) -> Seq<char> {
    "."@ + name + "."@ + text::decimal_text(process as nat) + "."@ + text::decimal_text(
        sequence as nat,
    ) + "."@ + purpose + ".tmp"@
}

/// The name of a file beside `name` that is in the making: no two of one
/// process have the same.
pub fn unique_temp_name(name: &str, process: u32, sequence: u64, purpose: &str) -> (r: String)
    ensures
        r@ == temp_name(name@, process, sequence, purpose@),
{
    let r = joined(".", name);
    let r = joined(r.as_str(), ".");
    let r = joined(r.as_str(), decimal(process as u64).as_str());
    let r = joined(r.as_str(), ".");
    let r = joined(r.as_str(), decimal(sequence).as_str());
    let r = joined(r.as_str(), ".");
    let r = joined(r.as_str(), purpose);
    joined(r.as_str(), ".tmp")
}

/// Files in the making of one process never share a name.
pub proof fn law_temp_names_are_unique(
    name: Seq<char>,
    process: u32,
    first: u64,
    second: u64,
    purpose: Seq<char>,
)
    requires
        first != second,
    ensures
        temp_name(name, process, first, purpose) != temp_name(name, process, second, purpose),
{
    let front = "."@ + name + "."@ + text::decimal_text(process as nat) + "."@;
    let back = "."@ + purpose + ".tmp"@;
    let a = text::decimal_text(first as nat);
    let b = text::decimal_text(second as nat);
    let s = temp_name(name, process, first, purpose);
    let t = temp_name(name, process, second, purpose);
    assert(s =~= front + a + back);
    assert(t =~= front + b + back);
    if s == t {
        assert(a.len() == b.len());
        assert forall|i: int| 0 <= i < a.len() implies a[i] == b[i] by {
            assert(s[front.len() + i] == a[i]);
            assert(t[front.len() + i] == b[i]);
        }
        assert(a =~= b);
        text::lemma_decimal_tells_apart(first as nat, second as nat);
    }
}

} // verus!
