//! What is found in a dictionary, and in the archive that it is published in.

use vstd::prelude::*;
use crate::archive::{ArchiveError, ListedView, Scan};
use crate::archive;
use crate::dictionary::EntryView;
use crate::dictionary;
use crate::source_laws;

verus! {

/// The first entry of a reading.
pub open spec fn first_entry(d: Seq<EntryView>, entry: EntryView) -> bool {
    exists|i: int|
        {
            &&& 0 <= i < d.len()
            &&& #[trigger] d[i] == entry
            &&& forall|k: int| 0 <= k < i ==> (#[trigger] d[k]).reading != entry.reading
        }
}

/// The words that a text begins with are the first entries of all readings
/// that it begins with, the shortest first and none twice.
pub proof fn law_words_that_a_text_begins_with(d: Seq<EntryView>, input: Seq<char>)
    ensures
        ({
            let words = dictionary::prefix_words(d, input);
            &&& forall|i: int|
                0 <= i < words.len() ==> first_entry(d, #[trigger] words[i]) && 0
                    < words[i].reading.len() <= input.len() && words[i].reading == input.take(
                    words[i].reading.len() as int,
                )
            &&& forall|i: int, j: int|
                0 <= i < j < words.len() ==> (#[trigger] words[i]).reading.len() < (
                #[trigger] words[j]).reading.len()
            &&& forall|k: int|
                0 <= k < d.len() && 0 < (#[trigger] d[k]).reading.len() <= input.len()
                    && d[k].reading == input.take(d[k].reading.len() as int) ==> exists|i: int|
                    0 <= i < words.len() && (#[trigger] words[i]).reading == d[k].reading
        }),
{
    let words = dictionary::prefix_words(d, input);
    lemma_words(d, input, input.len() as int);
    assert(words == dictionary::words_up_to(d, input, input.len() as int));
    assert forall|k: int|
        0 <= k < d.len() && 0 < (#[trigger] d[k]).reading.len() <= input.len() && d[k].reading
            == input.take(d[k].reading.len() as int) implies exists|i: int|
        0 <= i < words.len() && (#[trigger] words[i]).reading == d[k].reading by {
        let found = dictionary::words_up_to(d, input, input.len() as int);
        let i = choose|i: int|
            0 <= i < found.len() && (#[trigger] found[i]).reading == d[k].reading;
        assert(words[i].reading == d[k].reading);
    }
}

proof fn lemma_words(d: Seq<EntryView>, input: Seq<char>, n: int)
    requires
        0 <= n <= input.len(),
    ensures
        ({
            let words = dictionary::words_up_to(d, input, n);
            &&& forall|i: int|
                0 <= i < words.len() ==> first_entry(d, #[trigger] words[i]) && 0
                    < words[i].reading.len() <= n && words[i].reading == input.take(
                    words[i].reading.len() as int,
                )
            &&& forall|i: int, j: int|
                0 <= i < j < words.len() ==> (#[trigger] words[i]).reading.len() < (
                #[trigger] words[j]).reading.len()
            &&& forall|k: int|
                0 <= k < d.len() && 0 < (#[trigger] d[k]).reading.len() <= n && d[k].reading
                    == input.take(d[k].reading.len() as int) ==> exists|i: int|
                    0 <= i < words.len() && (#[trigger] words[i]).reading == d[k].reading
        }),
    decreases n,
{
    if n > 0 {
        lemma_words(d, input, n - 1);
        let before = dictionary::words_up_to(d, input, n - 1);
        let words = dictionary::words_up_to(d, input, n);
        let own = input.take(n);
        source_laws::lemma_surfaces(d, own);
        assert forall|i: int| 0 <= i < words.len() implies first_entry(d, #[trigger] words[i]) && 0
            < words[i].reading.len() <= n && words[i].reading == input.take(
            words[i].reading.len() as int,
        ) by {
            if i < before.len() {
                assert(words[i] == before[i]);
            } else {
                let c = dictionary::surfaces_of(d, own)->0;
                let j = choose|j: int|
                    {
                        &&& 0 <= j < d.len()
                        &&& (#[trigger] d[j]).reading == own
                        &&& d[j].candidates == c
                        &&& forall|k: int| 0 <= k < j ==> (#[trigger] d[k]).reading != own
                    };
                assert(d[j] == words[i]);
            }
        }
        assert forall|i: int, j: int| 0 <= i < j < words.len() implies (
        #[trigger] words[i]).reading.len() < (#[trigger] words[j]).reading.len() by {
            assert(words[i] == before[i]);
            if j < before.len() {
                assert(words[j] == before[j]);
            }
        }
        assert forall|k: int|
            0 <= k < d.len() && 0 < (#[trigger] d[k]).reading.len() <= n && d[k].reading
                == input.take(d[k].reading.len() as int) implies exists|i: int|
            0 <= i < words.len() && (#[trigger] words[i]).reading == d[k].reading by {
            if d[k].reading.len() < n {
                let i = choose|i: int|
                    0 <= i < before.len() && (#[trigger] before[i]).reading == d[k].reading;
                assert(words[i] == before[i]);
            } else {
                assert(d[k].reading == own);
                assert(words[before.len() as int].reading == own);
            }
        }
    }
}

/// The path of an entry is that of the dictionary, at the top of the archive.
pub open spec fn is_the_dictionary(entry: ListedView) -> bool {
    entry matches ListedView::Entry { path, .. } && (path == seq!["dict.bin"@] || path == seq![
        "."@,
        "dict.bin"@,
    ])
}

/// An entry that can be read and is not the dictionary.
pub open spec fn is_something_else(entry: ListedView) -> bool {
    entry is Entry && !is_the_dictionary(entry)
}

/// A regular file.
pub open spec fn is_regular(entry: ListedView) -> bool {
    entry matches ListedView::Entry { is_file, .. } && is_file
}

proof fn lemma_scanned(listing: Seq<ListedView>, from: int, found: bool)
    requires
        0 <= from <= listing.len() <= usize::MAX,
    ensures
        match archive::scanned(listing, from, found) {
            Scan::Read(i) => {
                &&& from <= i < listing.len()
                &&& !found
                &&& is_the_dictionary(listing[i as int]) && is_regular(listing[i as int])
                &&& forall|k: int| from <= k < i ==> is_something_else(#[trigger] listing[k])
            },
            Scan::Done => found && forall|k: int|
                from <= k < listing.len() ==> is_something_else(#[trigger] listing[k]),
            Scan::Fail(ArchiveError::Missing) => !found && forall|k: int|
                from <= k < listing.len() ==> is_something_else(#[trigger] listing[k]),
            Scan::Fail(ArchiveError::Unreadable) => exists|i: int|
                from <= i < listing.len() && #[trigger] listing[i] == ListedView::Broken,
            Scan::Fail(ArchiveError::BadPath) => exists|i: int|
                from <= i < listing.len() && #[trigger] listing[i] == ListedView::BadPath,
            Scan::Fail(ArchiveError::InvalidEntry) => exists|i: int|
                from <= i < listing.len() && is_the_dictionary(#[trigger] listing[i]) && (found
                    || !is_regular(listing[i])),
            Scan::Fail(ArchiveError::TooLarge) => false,
        },
    decreases listing.len() - from,
{
    if from < listing.len() {
        let own = listing[from];
        if is_something_else(own) {
            lemma_scanned(listing, from + 1, found);
        }
    }
}

/// Taking the dictionary out of an archive: it is had just where the archive
/// holds it once, as a regular file that can be read and is no larger than
/// 512 MiB, and everything else in it can be read; an error tells what is
/// wrong.
pub proof fn law_taking_the_dictionary_out(
    listing: Seq<ListedView>,
    content: spec_fn(int) -> Option<Seq<u8>>,
)
    requires
        listing.len() <= usize::MAX,
    ensures
        match archive::dictionary_of(listing, content) {
            Ok(bytes) => {
                &&& bytes.len() <= 0x2000_0000
                &&& exists|i: int|
                    #![trigger listing[i]]
                    {
                        &&& 0 <= i < listing.len()
                        &&& is_the_dictionary(listing[i]) && is_regular(listing[i])
                        &&& content(i) == Some(bytes)
                        &&& forall|k: int|
                            0 <= k < listing.len() && k != i ==> is_something_else(
                                #[trigger] listing[k],
                            )
                    }
            },
            Err(ArchiveError::Missing) => forall|k: int|
                0 <= k < listing.len() ==> is_something_else(#[trigger] listing[k]),
            Err(ArchiveError::BadPath) => exists|i: int|
                0 <= i < listing.len() && #[trigger] listing[i] == ListedView::BadPath,
            Err(ArchiveError::InvalidEntry) => exists|i: int|
                0 <= i < listing.len() && is_the_dictionary(#[trigger] listing[i]) && (
                !is_regular(listing[i]) || exists|j: int|
                    0 <= j < i && is_the_dictionary(#[trigger] listing[j])),
            Err(ArchiveError::TooLarge) => exists|i: int|
                0 <= i < listing.len() && is_the_dictionary(#[trigger] listing[i]) && (content(
                    i,
                ) matches Some(bytes) && bytes.len() > 0x2000_0000),
            Err(ArchiveError::Unreadable) => exists|i: int|
                0 <= i < listing.len() && (#[trigger] listing[i] == ListedView::Broken
                    || is_the_dictionary(listing[i]) && content(i) is None),
        },
{
    lemma_scanned(listing, 0, false);
    if let Scan::Read(i) = archive::scanned(listing, 0, false) {
        lemma_scanned(listing, i + 1, true);
        assert(is_the_dictionary(listing[i as int]));
        if let Ok(bytes) = archive::dictionary_of(listing, content) {
            assert forall|k: int| 0 <= k < listing.len() && k != i implies is_something_else(
                #[trigger] listing[k],
            ) by {
                if k > i {
                    assert(i + 1 <= k);
                }
            }
        }
    }
}

/// An archive in order gives its dictionary.
pub proof fn law_an_archive_in_order_gives_its_dictionary(
    listing: Seq<ListedView>,
    content: spec_fn(int) -> Option<Seq<u8>>,
    i: int,
    bytes: Seq<u8>,
)
    requires
        listing.len() <= usize::MAX,
        0 <= i < listing.len(),
        is_the_dictionary(listing[i]),
        is_regular(listing[i]),
        content(i) == Some(bytes),
        bytes.len() <= 0x2000_0000,
        forall|k: int|
            0 <= k < listing.len() && k != i ==> is_something_else(#[trigger] listing[k]),
    ensures
        archive::dictionary_of(listing, content) == Ok::<Seq<u8>, ArchiveError>(bytes),
{
    lemma_scanned(listing, 0, false);
    assert(!is_something_else(listing[i]));
    assert(forall|k: int|
        0 <= k < listing.len() && is_the_dictionary(#[trigger] listing[k]) ==> k == i);
    match archive::scanned(listing, 0, false) {
        Scan::Read(at) => {
            assert(is_the_dictionary(listing[at as int]));
            assert(at == i);
            lemma_scanned(listing, i + 1, true);
            assert(forall|k: int| i + 1 <= k < listing.len() ==> is_something_else(
                #[trigger] listing[k],
            ));
        },
        _ => {},
    }
}

/// The dictionary of a packed archive is what the one entry that is the
/// dictionary holds, of which no more is read than it may hold and one byte.
pub proof fn law_unpacking_an_archive(bytes: Seq<u8>)
    requires
        archive::archive_listing(bytes).len() <= usize::MAX,
    ensures
        archive::unpacked(bytes) matches Ok(dictionary) ==> dictionary.len() <= 0x2000_0000
            && exists|i: int|
            #![trigger archive::archive_listing(bytes)[i]]
            {
                &&& 0 <= i < archive::archive_listing(bytes).len()
                &&& is_the_dictionary(archive::archive_listing(bytes)[i])
                &&& is_regular(archive::archive_listing(bytes)[i])
                &&& archive::entry_content(bytes, i, 0x2000_0001) == Some(dictionary)
            },
        forall|i: int, dictionary: Seq<u8>|
            #![trigger archive::archive_listing(bytes)[i], dictionary.len()]
            {
                &&& 0 <= i < archive::archive_listing(bytes).len()
                &&& is_the_dictionary(archive::archive_listing(bytes)[i])
                &&& is_regular(archive::archive_listing(bytes)[i])
                &&& archive::entry_content(bytes, i, 0x2000_0001) == Some(dictionary)
                &&& dictionary.len() <= 0x2000_0000
                &&& forall|k: int|
                    0 <= k < archive::archive_listing(bytes).len() && k != i ==> is_something_else(
                        #[trigger] archive::archive_listing(bytes)[k],
                    )
            } ==> archive::unpacked(bytes) == Ok::<Seq<u8>, ArchiveError>(dictionary),
{
    let listing = archive::archive_listing(bytes);
    let content = |i: int| archive::entry_content(bytes, i, 0x2000_0001);
    let own = |i: int|
        archive::entry_content(bytes, i, archive::MAX_DICTIONARY_BYTES as int + 1);
    assert(content =~= own);
    law_taking_the_dictionary_out(listing, content);
    assert forall|i: int, dictionary: Seq<u8>|
        #![trigger listing[i], dictionary.len()]
        {
            &&& 0 <= i < listing.len()
            &&& is_the_dictionary(listing[i])
            &&& is_regular(listing[i])
            &&& archive::entry_content(bytes, i, 0x2000_0001) == Some(dictionary)
            &&& dictionary.len() <= 0x2000_0000
            &&& forall|k: int|
                0 <= k < listing.len() && k != i ==> is_something_else(#[trigger] listing[k])
        } implies archive::unpacked(bytes) == Ok::<Seq<u8>, ArchiveError>(dictionary) by {
        law_an_archive_in_order_gives_its_dictionary(listing, content, i, dictionary);
    }
}

} // verus!
