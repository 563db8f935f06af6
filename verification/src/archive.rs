//! The archive that a system dictionary is published in.

use vstd::prelude::*;
use crate::text::same_text;

verus! {

/// The greatest size of a dictionary: 512 MiB.
pub const MAX_DICTIONARY_BYTES: u64 = 536_870_912;

/// The name of the dictionary in its archive.
pub const DICTIONARY_NAME: &'static str = "dict.bin";

/// One entry of an archive, as far as it can be read.
pub enum ListedEntry {
    /// An entry, by the components of its path, and whether it is a regular
    /// file.
    Entry { path: Vec<String>, is_file: bool },
    /// An entry whose path cannot be told.
    BadPath,
    /// The archive is damaged here.
    Broken,
}

#[verifier::ext_equal]
pub enum ListedView {
    Entry { path: Seq<Seq<char>>, is_file: bool },
    BadPath,
    Broken,
}

impl DeepView for ListedEntry {
    type V = ListedView;

    open spec fn deep_view(&self) -> ListedView {
        match *self {
            ListedEntry::Entry { path, is_file } => ListedView::Entry {
                path: path.deep_view(),
                is_file,
            },
            ListedEntry::BadPath => ListedView::BadPath,
            ListedEntry::Broken => ListedView::Broken,
        }
    }
}

/// The entries of a tar archive that was packed with gzip.
pub uninterp spec fn archive_listing(bytes: Seq<u8>) -> Seq<ListedView>;

/// The first bytes of what an entry of such an archive holds, at most a given
/// number of them; nothing where they cannot be read.
pub uninterp spec fn entry_content(bytes: Seq<u8>, index: int, limit: int) -> Option<Seq<u8>>;

/// `tar::Archive::entries` over `flate2::read::GzDecoder` gives the entries in
/// the order of the archive; the first one that cannot be read is the last
/// one it gives. The listing is theirs, each entry by the components of its
/// path.
#[verifier::external_body]
fn list_entries(archive: &Vec<u8>) -> (r: Vec<ListedEntry>)
    ensures
        r.deep_view() == archive_listing(archive@),
{
    let mut archive = tar::Archive::new(flate2::read::GzDecoder::new(archive.as_slice()));
    let mut listing = Vec::new();
    for entry in archive.entries().into_iter().flatten() {
        listing.push(match &entry {
            Ok(entry) => match entry.path() {
                Ok(path) => ListedEntry::Entry {
                    path: path.iter().map(|part| part.to_string_lossy().into_owned()).collect(),
                    is_file: entry.header().entry_type().is_file(),
                },
                Err(_) => ListedEntry::BadPath,
            },
            Err(_) => ListedEntry::Broken,
        });
    }
    listing
}

/// Reading a `tar::Entry` gives the bytes that the entry holds, in order; at
/// most `limit` of them are read.
#[verifier::external_body]
fn read_entry(archive: &Vec<u8>, index: usize, limit: u64) -> (r: Option<Vec<u8>>)
    ensures
        r.deep_view() == entry_content(archive@, index as int, limit as int),
        r matches Some(content) ==> content@.len() <= limit,
{
    let mut archive = tar::Archive::new(flate2::read::GzDecoder::new(archive.as_slice()));
    let entry = archive.entries().ok()?.nth(index)?.ok()?;
    let mut content = Vec::new();
    std::io::Read::read_to_end(&mut std::io::Read::take(entry, limit), &mut content).ok()?;
    Some(content)
}

/// What is wrong with an archive.
#[derive(Debug, Clone, Copy, PartialEq, Eq, Structural)]
pub enum ArchiveError {
    /// An entry could not be read.
    Unreadable,
    /// The path of an entry could not be told.
    BadPath,
    /// The dictionary occurs twice or is not a regular file.
    InvalidEntry,
    /// The dictionary is too large.
    TooLarge,
    /// There is no dictionary.
    Missing,
}

/// Whether a path names the dictionary.
pub open spec fn names_dictionary(path: Seq<Seq<char>>) -> bool {
    ||| path == seq![DICTIONARY_NAME@]
    ||| path == seq!["."@, DICTIONARY_NAME@]
}

/// What to do next with an archive.
#[derive(Debug, Clone, Copy, PartialEq, Eq, Structural)]
pub enum Scan {
    /// Read the dictionary, which is the entry at this position.
    Read(usize),
    /// Nothing: the archive is in order.
    Done,
    Fail(ArchiveError),
}

/// What to do next with an archive whose entries from `from` on are not
/// looked at yet; `found` tells whether the dictionary was among the others.
pub open spec fn scanned(listing: Seq<ListedView>, from: int, found: bool) -> Scan
    decreases listing.len() - from,
{
    if from >= listing.len() {
        if found {
            Scan::Done
        } else {
            Scan::Fail(ArchiveError::Missing)
        }
    } else {
        match listing[from] {
            ListedView::Broken => Scan::Fail(ArchiveError::Unreadable),
            ListedView::BadPath => Scan::Fail(ArchiveError::BadPath),
            ListedView::Entry { path, is_file } => if !names_dictionary(path) {
                scanned(listing, from + 1, found)
            } else if found || !is_file {
                Scan::Fail(ArchiveError::InvalidEntry)
            } else {
                Scan::Read(from as usize)
            },
        }
    }
}

/// The dictionary that was read, if it is not too large.
pub open spec fn accepted(content: Option<Seq<u8>>) -> Result<Seq<u8>, ArchiveError> {
    match content {
        Some(bytes) => if bytes.len() > MAX_DICTIONARY_BYTES {
            Err(ArchiveError::TooLarge)
        } else {
            Ok(bytes)
        },
        None => Err(ArchiveError::Unreadable),
    }
}

/// The dictionary of an archive with the given entries, which hold the given
/// bytes.
pub open spec fn dictionary_of(
    listing: Seq<ListedView>,
    content: spec_fn(int) -> Option<Seq<u8>>,
) -> Result<Seq<u8>, ArchiveError> {
    match scanned(listing, 0, false) {
        Scan::Read(i) => match accepted(content(i as int)) {
            Err(error) => Err(error),
            Ok(bytes) => match scanned(listing, i + 1, true) {
                Scan::Fail(error) => Err(error),
                _ => Ok(bytes),
            },
        },
        Scan::Fail(error) => Err(error),
        Scan::Done => Err(ArchiveError::Missing),
    }
}

/// The dictionary of an archive.
pub open spec fn unpacked(bytes: Seq<u8>) -> Result<Seq<u8>, ArchiveError> {
    dictionary_of(
        archive_listing(bytes),
        |i: int| entry_content(bytes, i, MAX_DICTIONARY_BYTES as int + 1),
    )
}

fn is_dictionary(path: &Vec<String>) -> (r: bool)
    ensures
        r == names_dictionary(path.deep_view()),
{
    let n: usize = path.len();
    let last = n > 0 && same_text(path[n - 1].as_str(), DICTIONARY_NAME);
    let r = n == 1 && last || n == 2 && last && same_text(path[0].as_str(), ".");
    proof {
        let view = path.deep_view();
        assert(view.len() == n);
        assert(n > 0 ==> view[n - 1] == path@[n - 1]@ && view[0] == path@[0]@);
        assert(seq![DICTIONARY_NAME@].len() == 1);
        assert(seq!["."@, DICTIONARY_NAME@].len() == 2);
        if r {
            if n == 1 {
                assert(view =~= seq![DICTIONARY_NAME@]);
            } else {
                assert(view =~= seq!["."@, DICTIONARY_NAME@]);
            }
        } else {
            if view == seq![DICTIONARY_NAME@] {
                assert(view[0] == DICTIONARY_NAME@);
            }
            if view == seq!["."@, DICTIONARY_NAME@] {
                assert(view[0] == "."@);
                assert(view[1] == DICTIONARY_NAME@);
            }
        }
    }
    r
}

/// What to do next with an archive, from an entry on.
pub fn scan_archive(listing: &Vec<ListedEntry>, from: usize, found: bool) -> (r: Scan)
    ensures
        r == scanned(listing.deep_view(), from as int, found),
{
    let ghost all = listing.deep_view();
    let mut i: usize = from;
    while i < listing.len()
        invariant
            all == listing.deep_view(),
            scanned(all, from as int, found) == scanned(all, i as int, found),
        decreases listing@.len() - i,
    {
        assert(all[i as int] == listing@[i as int].deep_view());
        match &listing[i] {
            ListedEntry::Broken => return Scan::Fail(ArchiveError::Unreadable),
            ListedEntry::BadPath => return Scan::Fail(ArchiveError::BadPath),
            ListedEntry::Entry { path, is_file } => {
                if is_dictionary(path) {
                    if found || !*is_file {
                        return Scan::Fail(ArchiveError::InvalidEntry);
                    }
                    return Scan::Read(i);
                }
            },
        }
        i = i + 1;
    }
    if found {
        Scan::Done
    } else {
        Scan::Fail(ArchiveError::Missing)
    }
}

/// Accepts the dictionary that was read, if it is not too large.
pub fn accept_dictionary(content: Option<Vec<u8>>) -> (r: Result<Vec<u8>, ArchiveError>)
    ensures
        match r {
            Ok(bytes) => accepted(content.deep_view()) == Ok::<Seq<u8>, ArchiveError>(bytes@),
            Err(error) => accepted(content.deep_view()) == Err::<Seq<u8>, ArchiveError>(error),
        },
{
    match content {
        Some(bytes) => {
            let n: usize = bytes.len();
            assert(bytes.deep_view() =~= bytes@);
            if n as u128 > MAX_DICTIONARY_BYTES as u128 {
                Err(ArchiveError::TooLarge)
            } else {
                Ok(bytes)
            }
        },
        None => Err(ArchiveError::Unreadable),
    }
}

/// Takes the dictionary out of its archive: the archive holds it once, as a
/// regular file, and it is not too large.
pub fn extract_dictionary(archive: &Vec<u8>) -> (r: Result<Vec<u8>, ArchiveError>)
    ensures
        match r {
            Ok(bytes) => unpacked(archive@) == Ok::<Seq<u8>, ArchiveError>(bytes@),
            Err(error) => unpacked(archive@) == Err::<Seq<u8>, ArchiveError>(error),
        },
{
    let listing = list_entries(archive);
    let n: usize = listing.len();
    let i: usize = match scan_archive(&listing, 0, false) {
        Scan::Read(i) => i,
        Scan::Fail(error) => return Err(error),
        Scan::Done => return Err(ArchiveError::Missing),
    };
    proof {
        lemma_scan_reads(listing.deep_view(), 0, false, n as int);
    }
    let content = read_entry(archive, i, MAX_DICTIONARY_BYTES + 1);
    let bytes = match accept_dictionary(content) {
        Ok(bytes) => bytes,
        Err(error) => return Err(error),
    };
    match scan_archive(&listing, i + 1, true) {
        Scan::Fail(error) => Err(error),
        _ => Ok(bytes),
    }
}

/// What is read is an entry not looked at yet: a regular file that is the
/// dictionary.
proof fn lemma_scan_reads(listing: Seq<ListedView>, from: int, found: bool, n: int)
    requires
        0 <= from,
        n == listing.len(),
        n <= usize::MAX,
    ensures
        scanned(listing, from, found) matches Scan::Read(i) ==> from <= i < n && !found && (
        listing[i as int] matches ListedView::Entry { path, is_file } && is_file
            && names_dictionary(path)),
        scanned(listing, from, found) matches Scan::Read(i) ==> forall|k: int|
            from <= k < i ==> (#[trigger] listing[k] matches ListedView::Entry { path, .. }
                && !names_dictionary(path)),
        scanned(listing, from, found) == Scan::Done ==> found && forall|k: int|
            from <= k < n ==> (#[trigger] listing[k] matches ListedView::Entry { path, .. }
                && !names_dictionary(path)),
    decreases n - from,
{
    if from < n {
        if let ListedView::Entry { path, .. } = listing[from] {
            if !names_dictionary(path) {
                lemma_scan_reads(listing, from + 1, found, n);
            }
        }
    }
}

/// A dictionary is taken only out of an archive without damage that holds it
/// exactly once, as a regular file, and it is that file, not too large.
pub proof fn law_only_a_single_regular_dictionary_is_taken(
    listing: Seq<ListedView>,
    content: spec_fn(int) -> Option<Seq<u8>>,
)
    requires
        listing.len() <= usize::MAX,
    ensures
        dictionary_of(listing, content) matches Ok(bytes) ==> bytes.len() <= MAX_DICTIONARY_BYTES
            && exists|i: int|
            #![trigger listing[i]]
            {
                &&& 0 <= i < listing.len()
                &&& content(i) == Some(bytes)
                &&& listing[i] matches ListedView::Entry { path, is_file } && is_file
                    && names_dictionary(path)
                &&& forall|k: int|
                    0 <= k < listing.len() && k != i ==> (#[trigger] listing[k] matches ListedView::Entry {
                        path,
                        ..
                    } && !names_dictionary(path))
            },
{
    let n = listing.len() as int;
    lemma_scan_reads(listing, 0, false, n);
    if let Ok(bytes) = dictionary_of(listing, content) {
        if let Scan::Read(i) = scanned(listing, 0, false) {
            lemma_scan_reads(listing, i + 1, true, n);
            let at = i as int;
            assert(content(at) == Some(bytes));
            assert(listing[at] is Entry);
        }
    }
}

} // verus!
