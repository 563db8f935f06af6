//! What holds of every update of the system dictionary, told by what happened
//! and by what is done.

use vstd::prelude::*;
use vstd::string::*;
use crate::archive::ArchiveError;
use crate::archive;
use crate::dictionary_update::{ManifestView, OutcomeView, UpdateError, UpdateStateView, UrlLabel};
use crate::dictionary_update;
use crate::hash;
use crate::settings::SettingsView;
use crate::updater::{Checked, EventView, LockOutcome, PhaseView, PlanView, StageOutcome};
use crate::updater::UpdateActionView;
use crate::updater;

verus! {

/// An address of the web with encryption, without white space.
pub open spec fn secure(url: Seq<char>) -> bool {
    &&& url.len() >= 8
    &&& url.take(8) == seq!['h', 't', 't', 'p', 's', ':', '/', '/']
    &&& forall|i: int| 0 <= i < url.len() ==> !dictionary_update::white_space(#[trigger] url[i])
}

/// A manifest that an update can follow: of the one known layout, with a
/// version that has a name, an address with encryption, a size within bounds
/// and a digest of sixty-four hexadecimal digits.
pub open spec fn followable(m: ManifestView) -> bool {
    &&& m.schema_version == 1
    &&& exists|i: int|
        0 <= i < m.version.len() && !dictionary_update::white_space(#[trigger] m.version[i])
    &&& vstd::utf8::encode_utf8(m.version).len() <= 128
    &&& secure(m.url)
    &&& 1 <= m.size <= 256 * 1024 * 1024
    &&& m.sha256.len() == 64
    &&& forall|i: int|
        0 <= i < 64 ==> ('0' <= #[trigger] m.sha256[i] <= '9' || 'a' <= m.sha256[i] <= 'f' || 'A'
            <= m.sha256[i] <= 'F')
}

/// The addresses that are taken are those of the web with encryption.
pub proof fn law_addresses_are_secure(url: Seq<char>)
    ensures
        dictionary_update::https_url(url) <==> secure(url),
{
    reveal_strlit("https://");
    let start = "https://"@;
    assert(start =~= seq!['h', 't', 't', 'p', 's', ':', '/', '/']);
    if url.len() >= 8 {
        assert(url.take(8) =~= url.subrange(0, 8));
    }
}

/// A manifest is refused exactly where it cannot be followed, and what is told
/// of it is so.
pub proof fn law_manifests_are_refused_for_a_reason(m: ManifestView)
    ensures
        dictionary_update::manifest_fault(m) is None <==> followable(m),
        m.schema_version != 1 <==> dictionary_update::manifest_fault(m) == Some(
            UpdateError::Schema(m.schema_version),
        ),
        dictionary_update::manifest_fault(m) == Some(UpdateError::Version) ==> (
        vstd::utf8::encode_utf8(m.version).len() > 128 || forall|i: int|
            0 <= i < m.version.len() ==> dictionary_update::white_space(#[trigger] m.version[i])),
        dictionary_update::manifest_fault(m) matches Some(UpdateError::Url(label)) ==> label
            == UrlLabel::Archive && !secure(m.url),
        dictionary_update::manifest_fault(m) matches Some(UpdateError::Size(n)) ==> n == m.size && (
        n == 0 || n > 256 * 1024 * 1024),
        dictionary_update::manifest_fault(m) == Some(UpdateError::Digest) ==> !(m.sha256.len() == 64
            && forall|i: int|
            0 <= i < 64 ==> ('0' <= #[trigger] m.sha256[i] <= '9' || 'a' <= m.sha256[i] <= 'f'
                || 'A' <= m.sha256[i] <= 'F')),
        dictionary_update::manifest_fault(m) matches Some(error) ==> (error is Schema
            || error is Version || error is Url || error is Size || error is Digest),
{
    law_addresses_are_secure(m.url);
    if hash::digest_like(m.sha256) {
        assert forall|i: int| 0 <= i < 64 implies ('0' <= #[trigger] m.sha256[i] <= '9' || 'a'
            <= m.sha256[i] <= 'f' || 'A' <= m.sha256[i] <= 'F') by {
            assert(hash::hexadecimal(m.sha256[i]));
        }
    }
}

/// A check is put off only where the last one is known, lies in the past and
/// is younger than the interval.
pub proof fn law_a_check_is_put_off_only_within_the_interval(
    last_checked: int,
    now: int,
    interval_seconds: int,
)
    ensures
        !dictionary_update::is_due(last_checked, now, interval_seconds) <==> last_checked != 0
            && last_checked <= now < last_checked + interval_seconds,
{
}

/// The digest of an archive is the one that a manifest tells, in small letters
/// or in capitals.
pub open spec fn digest_agrees(bytes: Seq<u8>, told: Seq<char>) -> bool {
    &&& told.len() == 2 * hash::sha256(bytes).len()
    &&& forall|i: int|
        0 <= i < hash::sha256(bytes).len() ==> digit_value(told[2 * i]) * 16 + digit_value(
            told[2 * i + 1],
        ) == #[trigger] hash::sha256(bytes)[i]
}

/// What a hexadecimal digit counts.
pub open spec fn digit_value(c: char) -> int {
    if '0' <= c <= '9' {
        c as int - '0' as int
    } else if 'a' <= c <= 'f' {
        c as int - 'a' as int + 10
    } else if 'A' <= c <= 'F' {
        c as int - 'A' as int + 10
    } else {
        -1000
    }
}

proof fn lemma_digit(n: int, c: char)
    requires
        0 <= n < 16,
    ensures
        hash::small(hash::hex_digit(n)) == hash::small(c) <==> digit_value(c) == n,
{
    assert(hash::hex_digit(n) as int == if n < 10 {
        0x30 + n
    } else {
        0x57 + n
    });
    assert(hash::small(hash::hex_digit(n)) == hash::hex_digit(n));
    if 'A' <= c <= 'Z' {
        assert(hash::small(c) as int == c as int + 0x20);
    }
}

proof fn lemma_digest_agrees(bytes: Seq<u8>, told: Seq<char>)
    ensures
        hash::same_ignoring_case(hash::digest_text(bytes), told) <==> digest_agrees(bytes, told),
{
    let sum = hash::sha256(bytes);
    let text = hash::digest_text(bytes);
    assert(text.len() == 2 * sum.len());
    if told.len() == text.len() {
        if hash::same_ignoring_case(text, told) {
            assert forall|i: int| 0 <= i < sum.len() implies digit_value(told[2 * i]) * 16
                + digit_value(told[2 * i + 1]) == #[trigger] sum[i] by {
                let b = sum[i] as int;
                assert(text[2 * i] == hash::hex_digit(b / 16));
                assert(text[2 * i + 1] == hash::hex_digit(b % 16));
                lemma_digit(b / 16, told[2 * i]);
                lemma_digit(b % 16, told[2 * i + 1]);
            }
        }
        if digest_agrees(bytes, told) {
            assert forall|k: int| 0 <= k < text.len() implies hash::small(#[trigger] text[k])
                == hash::small(told[k]) by {
                let i = k / 2;
                let b = sum[i] as int;
                assert(digit_value(told[2 * i]) * 16 + digit_value(told[2 * i + 1]) == b);
                assert(text[2 * i] == hash::hex_digit(b / 16));
                assert(text[2 * i + 1] == hash::hex_digit(b % 16));
                let high = digit_value(told[2 * i]);
                let low = digit_value(told[2 * i + 1]);
                assert(-1000 <= high < 16 && -1000 <= low < 16);
                assert(high >= 0 && low >= 0);
                assert(high == b / 16 && low == b % 16);
                lemma_digit(b / 16, told[2 * i]);
                lemma_digit(b % 16, told[2 * i + 1]);
                assert(k == 2 * i || k == 2 * i + 1);
            }
        }
    }
}

/// An archive passes for the published one exactly where the published digits
/// are those of its digest, byte by byte.
pub proof fn law_the_digest_decides(bytes: Seq<u8>, manifest: ManifestView)
    ensures
        updater::has_digest(bytes, manifest) <==> digest_agrees(bytes, manifest.sha256),
{
    lemma_digest_agrees(bytes, manifest.sha256);
}

/// How an update begins: it asks for the lock exactly where the environment
/// does not forbid it, it is wanted or forced, and the dictionary is not the
/// user's own; else it is skipped. It goes by what the settings say.
pub proof fn law_what_begins_an_update(
    settings: SettingsView,
    force: bool,
    disabled: bool,
    destination: Seq<char>,
)
    ensures
        ({
            let (phase, action) = updater::begun(settings, force, disabled);
            if !disabled && (settings.updates || force) && settings.dict_path is None {
                phase == PhaseView::Locking && action == UpdateActionView::Lock
            } else {
                phase == PhaseView::Finished && (action matches UpdateActionView::Finish(
                    OutcomeView::Skipped { .. },
                ))
            }
        }),
        ({
            let plan = updater::plan_of(settings, force, destination);
            &&& plan.force == force
            &&& plan.manifest_url == settings.manifest_url
            &&& plan.timeout_seconds == settings.timeout_seconds
            &&& plan.destination == destination
            &&& settings.check_interval_hours <= 1_000_000_000 ==> plan.interval_seconds
                == settings.check_interval_hours * 3600
        }),
        dictionary_update::runs_in_background(settings, disabled) <==> updater::begun(
            settings,
            false,
            disabled,
        ).1 == UpdateActionView::Lock,
{
}

/// After a manifest that can be followed, the archive is opened at the address
/// in it wherever the installed version or the installed digest is not the
/// published one; only where both are, the installed dictionary is checked.
pub proof fn law_a_new_release_is_fetched(
    plan: PlanView,
    state: UpdateStateView,
    now: u64,
    final_url: Seq<char>,
    size: u64,
    manifest: ManifestView,
)
    requires
        secure(final_url),
        size <= 64 * 1024,
        followable(manifest),
    ensures
        ({
            let (phase, action) = updater::advanced(
                plan,
                PhaseView::Fetching { state, now },
                EventView::ManifestFetched { final_url, size, manifest: Some(manifest) },
            );
            if state.installed_version != Some(manifest.version) || state.archive_sha256 != Some(
                manifest.sha256,
            ) {
                &&& phase == (PhaseView::Opening { now, manifest })
                &&& action == (UpdateActionView::OpenArchive { url: manifest.url })
            } else {
                &&& phase == (PhaseView::Checking { state, now, manifest })
                &&& action == UpdateActionView::CheckInstalled
            }
        }),
{
    law_addresses_are_secure(final_url);
    law_manifests_are_refused_for_a_reason(manifest);
}

/// A manifest that cannot be followed, comes from an address without
/// encryption, is too large or is none ends the update with that reason.
pub proof fn law_a_bad_manifest_ends_the_update(
    plan: PlanView,
    state: UpdateStateView,
    now: u64,
    final_url: Seq<char>,
    size: u64,
    manifest: Option<ManifestView>,
)
    requires
        !(secure(final_url) && size <= 64 * 1024 && manifest is Some && followable(manifest->0)),
    ensures
        ({
            let (phase, action) = updater::advanced(
                plan,
                PhaseView::Fetching { state, now },
                EventView::ManifestFetched { final_url, size, manifest },
            );
            &&& phase == PhaseView::Finished
            &&& action matches UpdateActionView::Fail(error)
            &&& !secure(final_url) <==> error == UpdateError::Url(UrlLabel::FinalManifest)
            &&& secure(final_url) ==> (size > 64 * 1024 <==> error == UpdateError::ManifestTooLarge)
            &&& secure(final_url) && size <= 64 * 1024 ==> (manifest is None <==> error
                == UpdateError::ManifestJson)
        }),
{
    law_addresses_are_secure(final_url);
    if let Some(m) = manifest {
        law_manifests_are_refused_for_a_reason(m);
    }
}

/// Events that all go well, from the lock to the note of a new release: what
/// is done at each of them.
pub proof fn law_a_good_course_installs_the_release(
    plan: PlanView,
    kept: Option<UpdateStateView>,
    state: UpdateStateView,
    now: u64,
    final_url: Seq<char>,
    size: u64,
    manifest: ManifestView,
    archive_url: Seq<char>,
    archive: Seq<u8>,
    dictionary: Seq<u8>,
    replaces: bool,
)
    requires
        kept matches Some(known) ==> state == known,
        kept is None ==> state.last_checked_unix == 0 && state.installed_version is None
            && state.archive_sha256 is None,
        plan.force || state.last_checked_unix == 0 || now < state.last_checked_unix || now
            >= state.last_checked_unix + plan.interval_seconds,
        secure(plan.manifest_url),
        secure(final_url),
        secure(archive_url),
        size <= 64 * 1024,
        followable(manifest),
        state.installed_version != Some(manifest.version) || state.archive_sha256 != Some(
            manifest.sha256,
        ),
        archive.len() == manifest.size,
        digest_agrees(archive, manifest.sha256),
        archive::unpacked(archive) == Ok::<Seq<u8>, ArchiveError>(dictionary),
    ensures
        ({
            let p0 = updater::advanced(
                plan,
                PhaseView::Locking,
                EventView::Locked(LockOutcome::Held),
            );
            let p1 = updater::advanced(plan, p0.0, EventView::StateRead { state: kept, now });
            let p2 = updater::advanced(
                plan,
                p1.0,
                EventView::ManifestFetched { final_url, size, manifest: Some(manifest) },
            );
            let p3 = updater::advanced(
                plan,
                p2.0,
                EventView::ArchiveOpened { final_url: archive_url },
            );
            let p4 = updater::advanced(plan, p3.0, EventView::Chunk(archive));
            let p5 = updater::advanced(plan, p4.0, EventView::EndOfData);
            let p6 = updater::advanced(plan, p5.0, EventView::Stored { stored: true });
            let p7 = updater::advanced(plan, p6.0, EventView::Reread(Some(archive)));
            let p8 = updater::advanced(
                plan,
                p7.0,
                EventView::Staged(StageOutcome::Valid { replaces }),
            );
            let p9 = if replaces {
                updater::advanced(plan, p8.0, EventView::BackedUp { done: true })
            } else {
                p8
            };
            let p10 = updater::advanced(plan, p9.0, EventView::Replaced { done: true });
            &&& p0.1 == UpdateActionView::ReadState
            &&& p1.1 == (UpdateActionView::FetchManifest {
                url: plan.manifest_url,
                timeout_seconds: if plan.timeout_seconds == 0 {
                    1
                } else {
                    plan.timeout_seconds
                },
            })
            &&& p2.1 == (UpdateActionView::OpenArchive { url: manifest.url })
            &&& p3.1 == UpdateActionView::ReadChunk
            &&& p4.1 == UpdateActionView::ReadChunk
            &&& p5.1 == UpdateActionView::StoreArchive(archive)
            &&& p6.1 == UpdateActionView::RereadArchive
            &&& p7.1 == UpdateActionView::Stage(dictionary)
            &&& replaces ==> p8.1 == UpdateActionView::BackUp
            &&& p9.1 == UpdateActionView::Replace
            &&& p10.1 == UpdateActionView::SaveState(
                UpdateStateView {
                    last_checked_unix: now,
                    installed_version: Some(manifest.version),
                    archive_sha256: Some(manifest.sha256),
                },
            )
            &&& forall|saved: bool|
                #[trigger] updater::advanced(plan, p10.0, EventView::StateSaved { saved })
                    == (PhaseView::Finished, UpdateActionView::Finish(
                    OutcomeView::Updated { version: manifest.version, path: plan.destination },
                ))
        }),
{
    law_addresses_are_secure(plan.manifest_url);
    law_addresses_are_secure(final_url);
    law_addresses_are_secure(archive_url);
    law_manifests_are_refused_for_a_reason(manifest);
    lemma_digest_agrees(archive, manifest.sha256);
    assert(Seq::<u8>::empty() + archive =~= archive);
    if kept is None {
        assert(state == dictionary_update::no_update_yet());
    }
}

/// Where the published release is installed and can be used, the check is
/// noted, with nothing else changed in what is kept, and the update ends as up
/// to date; where it cannot be used, the archive is fetched again.
pub proof fn law_an_installed_release_is_kept_or_mended(
    plan: PlanView,
    state: UpdateStateView,
    now: u64,
    manifest: ManifestView,
)
    ensures
        ({
            let checking = PhaseView::Checking { state, now, manifest };
            let good = updater::advanced(
                plan,
                checking,
                EventView::InstalledChecked { usable: true },
            );
            let bad = updater::advanced(
                plan,
                checking,
                EventView::InstalledChecked { usable: false },
            );
            &&& good.1 matches UpdateActionView::SaveState(noted)
            &&& noted.last_checked_unix == now
            &&& noted.installed_version == state.installed_version
            &&& noted.archive_sha256 == state.archive_sha256
            &&& updater::advanced(plan, good.0, EventView::StateSaved { saved: true }) == (
                PhaseView::Finished,
                UpdateActionView::Finish(OutcomeView::UpToDate { version: manifest.version }),
            )
            &&& updater::advanced(plan, good.0, EventView::StateSaved { saved: false }) == (
                PhaseView::Finished,
                UpdateActionView::Fail(UpdateError::State),
            )
            &&& bad == (
                PhaseView::Opening { now, manifest },
                UpdateActionView::OpenArchive { url: manifest.url },
            )
        }),
{
}

/// What was received so far and more: it is kept behind what was there, unless
/// it is more than the manifest tells.
pub proof fn law_a_download_is_kept_in_order(
    plan: PlanView,
    now: u64,
    manifest: ManifestView,
    received: Seq<u8>,
    bytes: Seq<u8>,
)
    requires
        followable(manifest),
    ensures
        ({
            let (phase, action) = updater::advanced(
                plan,
                PhaseView::Downloading { now, manifest, received },
                EventView::Chunk(bytes),
            );
            if received.len() + bytes.len() <= manifest.size {
                &&& action == UpdateActionView::ReadChunk
                &&& phase matches PhaseView::Downloading { now: n, manifest: m, received: all }
                &&& n == now && m == manifest
                &&& all == received + bytes
            } else {
                &&& phase == PhaseView::Finished
                &&& action == UpdateActionView::Fail(UpdateError::TooMuchData)
            }
        }),
{
    law_manifests_are_refused_for_a_reason(manifest);
}

/// The end of a download: the archive is kept exactly where its size and its
/// digest are the published ones.
pub proof fn law_a_download_is_checked(
    plan: PlanView,
    now: u64,
    manifest: ManifestView,
    received: Seq<u8>,
)
    ensures
        ({
            let (phase, action) = updater::advanced(
                plan,
                PhaseView::Downloading { now, manifest, received },
                EventView::EndOfData,
            );
            if received.len() != manifest.size {
                &&& phase == PhaseView::Finished
                &&& action matches UpdateActionView::Fail(UpdateError::SizeMismatch { expected, .. })
                &&& expected == manifest.size
            } else if !digest_agrees(received, manifest.sha256) {
                &&& phase == PhaseView::Finished
                &&& action == UpdateActionView::Fail(UpdateError::DigestMismatch)
            } else {
                &&& phase == (PhaseView::Storing { now, manifest })
                &&& action == UpdateActionView::StoreArchive(received)
            }
        }),
{
    lemma_digest_agrees(received, manifest.sha256);
}

/// An archive is unpacked exactly where its size and its digest are still the
/// published ones.
pub proof fn law_an_archive_is_checked_again(archive: Seq<u8>, manifest: ManifestView)
    ensures
        match updater::verified(archive, manifest) {
            Ok(dictionary) => archive.len() == manifest.size && digest_agrees(
                archive,
                manifest.sha256,
            ) && archive::unpacked(archive) == Ok::<Seq<u8>, ArchiveError>(dictionary),
            Err(UpdateError::Changed) => archive.len() != manifest.size,
            Err(UpdateError::Revalidation) => archive.len() == manifest.size && !digest_agrees(
                archive,
                manifest.sha256,
            ),
            Err(UpdateError::Archive(error)) => archive.len() == manifest.size && digest_agrees(
                archive,
                manifest.sha256,
            ) && archive::unpacked(archive) == Err::<Seq<u8>, ArchiveError>(error),
            Err(_) => false,
        },
{
    lemma_digest_agrees(archive, manifest.sha256);
}

/// Whatever goes wrong ends the update, with the reason that belongs to it,
/// and nothing more is done.
pub proof fn law_what_goes_wrong_ends_the_update(
    plan: PlanView,
    state: UpdateStateView,
    now: u64,
    manifest: ManifestView,
    received: Seq<u8>,
    checked: Checked,
    url: Seq<char>,
)
    ensures
        updater::advanced(plan, PhaseView::Locking, EventView::Locked(LockOutcome::NoDirectory))
            == (PhaseView::Finished, UpdateActionView::Fail(UpdateError::DataDirectory)),
        updater::advanced(plan, PhaseView::Locking, EventView::Locked(LockOutcome::Failed)) == (
            PhaseView::Finished,
            UpdateActionView::Fail(UpdateError::Lock),
        ),
        updater::advanced(plan, PhaseView::Locking, EventView::Locked(LockOutcome::Busy)).1
            matches UpdateActionView::Finish(OutcomeView::Skipped { .. }),
        updater::advanced(plan, PhaseView::Fetching { state, now }, EventView::ManifestFailed) == (
            PhaseView::Finished,
            UpdateActionView::Fail(UpdateError::Fetch),
        ),
        updater::advanced(plan, PhaseView::Opening { now, manifest }, EventView::DownloadFailed)
            == (PhaseView::Finished, UpdateActionView::Fail(UpdateError::Download)),
        updater::advanced(
            plan,
            PhaseView::Downloading { now, manifest, received },
            EventView::DownloadFailed,
        ) == (PhaseView::Finished, UpdateActionView::Fail(UpdateError::Download)),
        !secure(url) ==> updater::advanced(
            plan,
            PhaseView::Opening { now, manifest },
            EventView::ArchiveOpened { final_url: url },
        ) == (
            PhaseView::Finished,
            UpdateActionView::Fail(UpdateError::Url(UrlLabel::FinalArchive)),
        ),
        updater::advanced(
            plan,
            PhaseView::Storing { now, manifest },
            EventView::Stored { stored: false },
        ) == (PhaseView::Finished, UpdateActionView::Fail(UpdateError::Store)),
        updater::advanced(plan, PhaseView::Rereading { now, manifest }, EventView::Reread(None))
            == (PhaseView::Finished, UpdateActionView::Fail(UpdateError::Store)),
        updater::advanced(
            plan,
            PhaseView::Staging(checked),
            EventView::Staged(StageOutcome::Failed),
        ) == (PhaseView::Finished, UpdateActionView::Fail(UpdateError::Stage)),
        updater::advanced(
            plan,
            PhaseView::Staging(checked),
            EventView::Staged(StageOutcome::Invalid),
        ) == (PhaseView::Finished, UpdateActionView::Fail(UpdateError::Format)),
        updater::advanced(
            plan,
            PhaseView::BackingUp(checked),
            EventView::BackedUp { done: false },
        ) == (PhaseView::Finished, UpdateActionView::Fail(UpdateError::Backup)),
        updater::advanced(
            plan,
            PhaseView::Replacing(checked),
            EventView::Replaced { done: false },
        ) == (PhaseView::Finished, UpdateActionView::Fail(UpdateError::Replace)),
{
    law_addresses_are_secure(url);
}

/// Once the state is read, the manifest is fetched from the address of the
/// settings, unless the last check is too young and the update is not forced.
pub proof fn law_a_recent_check_is_not_repeated(
    plan: PlanView,
    state: UpdateStateView,
    now: u64,
)
    ensures
        ({
            let (phase, action) = updater::advanced(
                plan,
                PhaseView::Reading,
                EventView::StateRead { state: Some(state), now },
            );
            if !plan.force && state.last_checked_unix != 0 && state.last_checked_unix <= now && now
                - state.last_checked_unix < plan.interval_seconds {
                &&& phase == PhaseView::Finished
                &&& action matches UpdateActionView::Finish(OutcomeView::Skipped { .. })
            } else if !secure(plan.manifest_url) {
                &&& phase == PhaseView::Finished
                &&& action == UpdateActionView::Fail(UpdateError::Url(UrlLabel::Manifest))
            } else {
                &&& phase == (PhaseView::Fetching { state, now })
                &&& action matches UpdateActionView::FetchManifest { url, timeout_seconds }
                &&& url == plan.manifest_url
                &&& timeout_seconds >= 1
                &&& plan.timeout_seconds > 0 ==> timeout_seconds == plan.timeout_seconds
            }
        }),
{
    law_addresses_are_secure(plan.manifest_url);
}

/// Where an update stands after some events, and what is done at the last of
/// them.
pub open spec fn course(plan: PlanView, events: Seq<EventView>) -> (PhaseView, UpdateActionView)
    decreases events.len(),
{
    if events.len() == 0 {
        (PhaseView::Locking, UpdateActionView::Lock)
    } else {
        updater::advanced(plan, course(plan, events.drop_last()).0, events.last())
    }
}

/// The events tell what was kept of the last update; nothing kept counts as no
/// update yet.
pub open spec fn state_told(events: Seq<EventView>, state: UpdateStateView, now: u64) -> bool {
    ||| events.contains(EventView::StateRead { state: Some(state), now })
    ||| events.contains(EventView::StateRead { state: None, now }) && state.last_checked_unix == 0
        && state.installed_version is None && state.archive_sha256 is None
}

/// The events tell a manifest that can be followed.
pub open spec fn manifest_told(events: Seq<EventView>, manifest: ManifestView) -> bool {
    followable(manifest) && exists|url: Seq<char>, size: u64|
        secure(url) && size <= 64 * 1024 && #[trigger] events.contains(
            EventView::ManifestFetched { final_url: url, size, manifest: Some(manifest) },
        )
}

/// The events tell an archive that is the published one and holds the
/// dictionary.
pub open spec fn archive_told(events: Seq<EventView>, c: Checked) -> bool {
    &&& manifest_told(events, c.manifest)
    &&& events.contains(EventView::Reread(Some(c.archive)))
    &&& c.archive.len() == c.manifest.size
    &&& digest_agrees(c.archive, c.manifest.sha256)
    &&& archive::unpacked(c.archive) == Ok::<Seq<u8>, ArchiveError>(c.dictionary)
}

/// The events tell that the dictionary can be used and that an installed one
/// is backed up.
pub open spec fn readiness_told(events: Seq<EventView>) -> bool {
    ||| events.contains(EventView::Staged(StageOutcome::Valid { replaces: false }))
    ||| events.contains(EventView::Staged(StageOutcome::Valid { replaces: true }))
        && events.contains(EventView::BackedUp { done: true })
}

/// The events tell that what is installed is the published release and can be
/// used.
pub open spec fn release_told_installed(events: Seq<EventView>, manifest: ManifestView) -> bool {
    &&& manifest_told(events, manifest)
    &&& events.contains(EventView::InstalledChecked { usable: true })
    &&& exists|state: UpdateStateView, now: u64|
        #[trigger] state_told(events, state, now) && state.installed_version == Some(
            manifest.version,
        ) && state.archive_sha256 == Some(manifest.sha256)
}

/// The events tell that the published dictionary was put in place.
pub open spec fn release_told_in_place(events: Seq<EventView>, manifest: ManifestView) -> bool {
    &&& readiness_told(events)
    &&& events.contains(EventView::Replaced { done: true })
    &&& exists|c: Checked| #[trigger] archive_told(events, c) && c.manifest == manifest
}

/// What an update knows where it stands is what the events told.
pub open spec fn founded(events: Seq<EventView>, phase: PhaseView) -> bool {
    match phase {
        PhaseView::Fetching { state, now } => state_told(events, state, now),
        PhaseView::Checking { state, now, manifest } => state_told(events, state, now)
            && manifest_told(events, manifest) && state.installed_version == Some(manifest.version)
            && state.archive_sha256 == Some(manifest.sha256),
        PhaseView::Confirming { manifest } => release_told_installed(events, manifest),
        PhaseView::Opening { manifest, .. } => manifest_told(events, manifest),
        PhaseView::Downloading { manifest, .. } => manifest_told(events, manifest),
        PhaseView::Storing { manifest, .. } => manifest_told(events, manifest),
        PhaseView::Rereading { manifest, .. } => manifest_told(events, manifest),
        PhaseView::Staging(c) => archive_told(events, c),
        PhaseView::BackingUp(c) => archive_told(events, c) && events.contains(
            EventView::Staged(StageOutcome::Valid { replaces: true }),
        ),
        PhaseView::Replacing(c) => archive_told(events, c) && readiness_told(events),
        PhaseView::Saving { manifest } => release_told_in_place(events, manifest),
        _ => true,
    }
}

proof fn lemma_more_is_told(events: Seq<EventView>, event: EventView, other: EventView)
    requires
        events.contains(other),
    ensures
        events.push(event).contains(other),
{
    let i = choose|i: int| 0 <= i < events.len() && events[i] == other;
    assert(events.push(event)[i] == other);
}

proof fn lemma_state_stays_told(
    events: Seq<EventView>,
    event: EventView,
    state: UpdateStateView,
    now: u64,
)
    requires
        state_told(events, state, now),
    ensures
        state_told(events.push(event), state, now),
{
    if events.contains(EventView::StateRead { state: Some(state), now }) {
        lemma_more_is_told(events, event, EventView::StateRead { state: Some(state), now });
    } else {
        lemma_more_is_told(events, event, EventView::StateRead { state: None, now });
    }
}

proof fn lemma_manifest_stays_told(
    events: Seq<EventView>,
    event: EventView,
    manifest: ManifestView,
)
    requires
        manifest_told(events, manifest),
    ensures
        manifest_told(events.push(event), manifest),
{
    let (url, size) = choose|url: Seq<char>, size: u64|
        secure(url) && size <= 64 * 1024 && #[trigger] events.contains(
            EventView::ManifestFetched { final_url: url, size, manifest: Some(manifest) },
        );
    lemma_more_is_told(
        events,
        event,
        EventView::ManifestFetched { final_url: url, size, manifest: Some(manifest) },
    );
}

proof fn lemma_archive_stays_told(events: Seq<EventView>, event: EventView, c: Checked)
    requires
        archive_told(events, c),
    ensures
        archive_told(events.push(event), c),
{
    lemma_manifest_stays_told(events, event, c.manifest);
    lemma_more_is_told(events, event, EventView::Reread(Some(c.archive)));
}

proof fn lemma_stays_founded(events: Seq<EventView>, event: EventView, phase: PhaseView)
    requires
        founded(events, phase),
    ensures
        founded(events.push(event), phase),
{
    let more = events.push(event);
    let valid = EventView::Staged(StageOutcome::Valid { replaces: false });
    let replacing = EventView::Staged(StageOutcome::Valid { replaces: true });
    let backed = EventView::BackedUp { done: true };
    if events.contains(valid) {
        lemma_more_is_told(events, event, valid);
    }
    if events.contains(replacing) {
        lemma_more_is_told(events, event, replacing);
    }
    if events.contains(backed) {
        lemma_more_is_told(events, event, backed);
    }
    match phase {
        PhaseView::Fetching { state, now } => lemma_state_stays_told(events, event, state, now),
        PhaseView::Checking { state, now, manifest } => {
            lemma_state_stays_told(events, event, state, now);
            lemma_manifest_stays_told(events, event, manifest);
        },
        PhaseView::Confirming { manifest } => {
            lemma_manifest_stays_told(events, event, manifest);
            lemma_more_is_told(events, event, EventView::InstalledChecked { usable: true });
            let (state, now) = choose|state: UpdateStateView, now: u64|
                #[trigger] state_told(events, state, now) && state.installed_version == Some(
                    manifest.version,
                ) && state.archive_sha256 == Some(manifest.sha256);
            lemma_state_stays_told(events, event, state, now);
        },
        PhaseView::Opening { manifest, .. } => lemma_manifest_stays_told(events, event, manifest),
        PhaseView::Downloading { manifest, .. } => lemma_manifest_stays_told(
            events,
            event,
            manifest,
        ),
        PhaseView::Storing { manifest, .. } => lemma_manifest_stays_told(events, event, manifest),
        PhaseView::Rereading { manifest, .. } => lemma_manifest_stays_told(events, event, manifest),
        PhaseView::Staging(c) => lemma_archive_stays_told(events, event, c),
        PhaseView::BackingUp(c) => lemma_archive_stays_told(events, event, c),
        PhaseView::Replacing(c) => lemma_archive_stays_told(events, event, c),
        PhaseView::Saving { manifest } => {
            lemma_more_is_told(events, event, EventView::Replaced { done: true });
            let c = choose|c: Checked| #[trigger] archive_told(events, c) && c.manifest == manifest;
            lemma_archive_stays_told(events, event, c);
        },
        _ => {},
    }
}

proof fn lemma_step_is_founded(
    plan: PlanView,
    events: Seq<EventView>,
    event: EventView,
    phase: PhaseView,
)
    requires
        founded(events, phase),
    ensures
        founded(events.push(event), updater::advanced(plan, phase, event).0),
{
    let more = events.push(event);
    assert(more[events.len() as int] == event);
    assert(more.contains(event));
    lemma_stays_founded(events, event, phase);
    match (phase, event) {
        (
            PhaseView::Fetching { state, now },
            EventView::ManifestFetched { final_url, size, manifest },
        ) => {
            law_addresses_are_secure(final_url);
            if let Some(m) = manifest {
                law_manifests_are_refused_for_a_reason(m);
                if secure(final_url) && size <= 64 * 1024 && followable(m) {
                    law_a_new_release_is_fetched(plan, state, now, final_url, size, m);
                    assert(manifest_told(more, m));
                }
            }
        },
        (
            PhaseView::Checking { state, now, manifest },
            EventView::InstalledChecked { usable },
        ) => {
            assert(state_told(more, state, now));
        },
        (PhaseView::Rereading { now, manifest }, EventView::Reread(Some(archive))) => {
            lemma_digest_agrees(archive, manifest.sha256);
            if let Ok(dictionary) = updater::verified(archive, manifest) {
                assert(archive_told(more, Checked { now, manifest, archive, dictionary }));
            }
        },
        (PhaseView::Replacing(c), EventView::Replaced { done }) => {
            assert(archive_told(more, c));
        },
        _ => {},
    }
}

proof fn lemma_course_is_founded(plan: PlanView, events: Seq<EventView>)
    ensures
        founded(events, course(plan, events).0),
    decreases events.len(),
{
    if events.len() > 0 {
        let before = events.drop_last();
        lemma_course_is_founded(plan, before);
        lemma_step_is_founded(plan, before, events.last(), course(plan, before).0);
        assert(before.push(events.last()) =~= events);
    }
}

/// An update ends as up to date only where what was kept names the very
/// version and digest that a followable manifest publishes, and the installed
/// dictionary can be used.
pub proof fn law_up_to_date_means_the_published_release(
    plan: PlanView,
    events: Seq<EventView>,
    version: Seq<char>,
)
    requires
        course(plan, events).1 == UpdateActionView::Finish(OutcomeView::UpToDate { version }),
    ensures
        exists|manifest: ManifestView|
            #[trigger] release_told_installed(events, manifest) && manifest.version == version,
{
    let before = events.drop_last();
    lemma_course_is_founded(plan, before);
    let phase = course(plan, before).0;
    assert(phase is Confirming);
    let manifest = phase->Confirming_manifest;
    lemma_stays_founded(before, events.last(), phase);
    assert(before.push(events.last()) =~= events);
    assert(release_told_installed(events, manifest));
}

/// An update ends as made only where the archive of a followable manifest, of
/// the published size and digest, was unpacked, found usable and put in place,
/// after a backup where one was installed; it names the published version and
/// the place of the dictionary.
pub proof fn law_updated_means_the_published_release(
    plan: PlanView,
    events: Seq<EventView>,
    version: Seq<char>,
    path: Seq<char>,
)
    requires
        course(plan, events).1 == UpdateActionView::Finish(OutcomeView::Updated { version, path }),
    ensures
        path == plan.destination,
        exists|manifest: ManifestView|
            #[trigger] release_told_in_place(events, manifest) && manifest.version == version,
{
    let before = events.drop_last();
    lemma_course_is_founded(plan, before);
    let phase = course(plan, before).0;
    assert(phase is Saving);
    let manifest = phase->Saving_manifest;
    lemma_stays_founded(before, events.last(), phase);
    assert(before.push(events.last()) =~= events);
    assert(release_told_in_place(events, manifest));
}

/// The installed dictionary is replaced only once the archive of a followable
/// manifest, of the published size and digest, was unpacked, found usable, and
/// an installed one backed up.
pub proof fn law_replacing_is_founded(plan: PlanView, events: Seq<EventView>)
    requires
        course(plan, events).1 == UpdateActionView::Replace,
    ensures
        readiness_told(events),
        exists|c: Checked| #[trigger] archive_told(events, c),
{
    lemma_course_is_founded(plan, events);
    let phase = course(plan, events).0;
    assert(phase is Replacing);
    assert(archive_told(events, phase->Replacing_0));
}

/// What came of an update is told with the version, and with the place or the
/// reason where there is one.
pub proof fn law_what_came_of_an_update_is_told(version: Seq<char>, path: Seq<char>, reason: Seq<char>)
    ensures
        dictionary_update::outcome_text(OutcomeView::Updated { version, path }) == "updated to "@
            + version + ": "@ + path,
        dictionary_update::outcome_text(OutcomeView::UpToDate { version })
            == "already up to date: "@ + version,
        dictionary_update::outcome_text(OutcomeView::Skipped { reason }) == "skipped: "@ + reason,
{
}

/// White space is the tab and what follows it up to the carriage return, the
/// blanks of every width, and what ends a line or a paragraph.
pub proof fn law_what_is_white_space(c: char)
    ensures
        ({
            let n = c as int;
            let line = 0x09 <= n <= 0x0d || n == 0x85 || n == 0x2028 || n == 0x2029;
            let space = n == 0x20 || n == 0xa0 || n == 0x1680 || 0x2000 <= n <= 0x200a || n
                == 0x202f || n == 0x205f || n == 0x3000;
            dictionary_update::white_space(c) <==> line || space
        }),
{
}

} // verus!
