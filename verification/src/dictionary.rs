//! A dictionary as the conversion logic reads it: readings, each with its
//! surfaces and their costs.

use vstd::prelude::*;
use crate::lists::add_item;
use crate::text::{chars_of, text_of_range, same_text};

verus! {

/// One surface of a reading. A lower score is a more likely word.
pub struct DictionaryCandidate {
    pub surface: String,
    pub score: i32,
}

/// A reading with its surfaces, in the order of the dictionary.
pub struct DictionaryEntry {
    pub reading: String,
    pub candidates: Vec<DictionaryCandidate>,
}

/// The entries of a dictionary. Where a reading occurs twice the first entry
/// counts.
pub struct Dictionary {
    pub entries: Vec<DictionaryEntry>,
}

#[verifier::ext_equal]
pub struct SurfaceView {
    pub surface: Seq<char>,
    pub score: int,
}

#[verifier::ext_equal]
pub struct EntryView {
    pub reading: Seq<char>,
    pub candidates: Seq<SurfaceView>,
}

impl DeepView for DictionaryCandidate {
    type V = SurfaceView;

    open spec fn deep_view(&self) -> SurfaceView {
        SurfaceView { surface: self.surface@, score: self.score as int }
    }
}

impl DeepView for DictionaryEntry {
    type V = EntryView;

    open spec fn deep_view(&self) -> EntryView {
        EntryView { reading: self.reading@, candidates: self.candidates.deep_view() }
    }
}

impl DeepView for Dictionary {
    type V = Seq<EntryView>;

    open spec fn deep_view(&self) -> Seq<EntryView> {
        self.entries.deep_view()
    }
}

impl Clone for DictionaryCandidate {
    fn clone(&self) -> (r: Self)
        ensures
            r.deep_view() == self.deep_view(),
    {
        DictionaryCandidate { surface: self.surface.clone(), score: self.score }
    }
}

impl Clone for DictionaryEntry {
    fn clone(&self) -> (r: Self)
        ensures
            r.deep_view() == self.deep_view(),
    {
        let candidates = self.candidates.clone();
        assert(candidates.deep_view() =~= self.candidates.deep_view());
        DictionaryEntry { reading: self.reading.clone(), candidates }
    }
}

impl Clone for Dictionary {
    fn clone(&self) -> (r: Self)
        ensures
            r.deep_view() == self.deep_view(),
    {
        let entries = self.entries.clone();
        assert(entries.deep_view() =~= self.entries.deep_view());
        Dictionary { entries }
    }
}

/// The surfaces of a reading: those of the first entry with that reading.
pub open spec fn surfaces_of(dict: Seq<EntryView>, reading: Seq<char>) -> Option<Seq<SurfaceView>>
    decreases dict.len(),
{
    if dict.len() == 0 {
        None
    } else if dict[0].reading == reading {
        Some(dict[0].candidates)
    } else {
        surfaces_of(dict.drop_first(), reading)
    }
}

/// The words of the dictionary that are among the first `k` prefixes of
/// `input`, shortest first.
pub open spec fn words_up_to(dict: Seq<EntryView>, input: Seq<char>, k: int) -> Seq<EntryView>
    decreases k,
{
    if k <= 0 {
        Seq::empty()
    } else {
        match surfaces_of(dict, input.take(k)) {
            Some(candidates) => words_up_to(dict, input, k - 1).push(
                EntryView { reading: input.take(k), candidates },
            ),
            None => words_up_to(dict, input, k - 1),
        }
    }
}

/// The words of the dictionary that `input` begins with, shortest first.
pub open spec fn prefix_words(dict: Seq<EntryView>, input: Seq<char>) -> Seq<EntryView> {
    words_up_to(dict, input, input.len() as int)
}

/// The longest prefix of `input`, of at most `k` and at least `least`
/// characters, that is a word with at least `surfaces` surfaces.
pub open spec fn longest_word_up_to(
    dict: Seq<EntryView>,
    input: Seq<char>,
    k: int,
    least: int,
    surfaces: int,
) -> Option<int>
    decreases k,
{
    if k <= 0 || k < least {
        None
    } else {
        match surfaces_of(dict, input.take(k)) {
            Some(candidates) if candidates.len() >= surfaces => Some(k),
            _ => longest_word_up_to(dict, input, k - 1, least, surfaces),
        }
    }
}

/// The longest registered word that `input` begins with, with its first
/// surface.
pub open spec fn longest_registered(dict: Option<Seq<EntryView>>, input: Seq<char>) -> Option<
    (Seq<char>, Seq<char>),
> {
    match dict {
        None => None,
        Some(d) => match longest_word_up_to(d, input, input.len() as int, 1, 1) {
            Some(k) => Some((input.take(k), surfaces_of(d, input.take(k))->0[0].surface)),
            None => None,
        },
    }
}

/// The longest word of two characters or more that `input` begins with.
pub open spec fn longest_reading(dict: Option<Seq<EntryView>>, input: Seq<char>) -> Option<
    Seq<char>,
> {
    match dict {
        None => None,
        Some(d) => match longest_word_up_to(d, input, input.len() as int, 2, 0) {
            Some(k) => Some(input.take(k)),
            None => None,
        },
    }
}

proof fn lemma_surfaces_from(dict: Seq<EntryView>, reading: Seq<char>, i: int)
    requires
        0 <= i < dict.len(),
        dict[i].reading == reading,
        forall|j: int| 0 <= j < i ==> (#[trigger] dict[j]).reading != reading,
    ensures
        surfaces_of(dict, reading) == Some(dict[i].candidates),
    decreases i,
{
    if i > 0 {
        assert(dict[0].reading != reading);
        lemma_surfaces_from(dict.drop_first(), reading, i - 1);
    }
}

proof fn lemma_no_surfaces(dict: Seq<EntryView>, reading: Seq<char>)
    requires
        forall|j: int| 0 <= j < dict.len() ==> (#[trigger] dict[j]).reading != reading,
    ensures
        surfaces_of(dict, reading) is None,
    decreases dict.len(),
{
    if dict.len() > 0 {
        assert(dict[0].reading != reading);
        lemma_no_surfaces(dict.drop_first(), reading);
    }
}

impl Dictionary {
    /// A dictionary made of the given entries.
    pub fn from_entries(entries: Vec<DictionaryEntry>) -> (r: Self)
        ensures
            r.deep_view() == entries.deep_view(),
    {
        Dictionary { entries }
    }

    /// The entry of a reading.
    pub fn exact_match_search(&self, reading: &str) -> (r: Option<&DictionaryEntry>)
        ensures
            match r {
                Some(entry) => entry.deep_view().reading == reading@ && surfaces_of(
                    self.deep_view(),
                    reading@,
                ) == Some(entry.deep_view().candidates),
                None => surfaces_of(self.deep_view(), reading@) is None,
            },
    {
        let mut i: usize = 0;
        while i < self.entries.len()
            invariant
                i <= self.entries@.len(),
                forall|j: int|
                    0 <= j < i ==> (#[trigger] self.deep_view()[j]).reading != reading@,
            decreases self.entries@.len() - i,
        {
            let entry = &self.entries[i];
            assert(self.deep_view()[i as int] == entry.deep_view());
            if same_text(entry.reading.as_str(), reading) {
                proof {
                    lemma_surfaces_from(self.deep_view(), reading@, i as int);
                }
                return Some(entry);
            }
            i = i + 1;
        }
        proof {
            lemma_no_surfaces(self.deep_view(), reading@);
        }
        None
    }

    /// The entries whose readings `input` begins with, shortest first.
    pub fn common_prefix_search(&self, input: &str) -> (r: Vec<&DictionaryEntry>)
        ensures
            r.deep_view() == prefix_words(self.deep_view(), input@),
    {
        let chars = chars_of(input);
        let mut r: Vec<&DictionaryEntry> = Vec::new();
        let mut k: usize = 0;
        while k < chars.len()
            invariant
                k <= chars@.len(),
                chars@ == input@,
                r.deep_view() == words_up_to(self.deep_view(), input@, k as int),
            decreases chars@.len() - k,
        {
            k = k + 1;
            let prefix = text_of_range(&chars, 0, k);
            assert(prefix@ == input@.take(k as int));
            match self.exact_match_search(prefix.as_str()) {
                Some(entry) => {
                    add_item(&mut r, entry);
                },
                None => {},
            }
        }
        r
    }

    /// The longest prefix of `chars[from..]`, of at least `least` characters,
    /// that is a word with at least `surfaces` surfaces.
    fn longest_word_from(
        &self,
        chars: &Vec<char>,
        from: usize,
        least: usize,
        surfaces: usize,
    ) -> (r: Option<usize>)
        requires
            from <= chars@.len(),
            least >= 1,
        ensures
            match r {
                Some(k) => longest_word_up_to(
                    self.deep_view(),
                    chars@.skip(from as int),
                    chars@.len() - from,
                    least as int,
                    surfaces as int,
                ) == Some(k as int) && least <= k <= chars@.len() - from,
                None => longest_word_up_to(
                    self.deep_view(),
                    chars@.skip(from as int),
                    chars@.len() - from,
                    least as int,
                    surfaces as int,
                ) is None,
            },
    {
        let ghost input = chars@.skip(from as int);
        let n: usize = chars.len();
        let mut k: usize = n - from;
        while k >= least
            invariant
                from <= n,
                n == chars@.len(),
                k <= n - from,
                least >= 1,
                input == chars@.skip(from as int),
                longest_word_up_to(
                    self.deep_view(),
                    input,
                    n - from,
                    least as int,
                    surfaces as int,
                ) == longest_word_up_to(
                    self.deep_view(),
                    input,
                    k as int,
                    least as int,
                    surfaces as int,
                ),
            decreases k,
        {
            let prefix = text_of_range(chars, from, from + k);
            assert(prefix@ =~= input.take(k as int));
            match self.exact_match_search(prefix.as_str()) {
                Some(entry) => {
                    if entry.candidates.len() >= surfaces {
                        return Some(k);
                    }
                },
                None => {},
            }
            k = k - 1;
        }
        None
    }
}

/// The longest registered word that `chars[from..]` begins with, with its
/// first surface.
pub fn longest_user_dict_prefix(dict: &Option<Dictionary>, chars: &Vec<char>, from: usize) -> (r:
    Option<(String, String)>)
    requires
        from <= chars@.len(),
    ensures
        match r {
            Some((reading, surface)) => longest_registered(
                dict.deep_view(),
                chars@.skip(from as int),
            ) == Some((reading@, surface@)) && 1 <= reading@.len() <= chars@.len() - from,
            None => longest_registered(dict.deep_view(), chars@.skip(from as int)) is None,
        },
{
    let n: usize = chars.len();
    match dict {
        None => None,
        Some(d) => match d.longest_word_from(chars, from, 1, 1) {
            None => None,
            Some(k) => {
                assert(from + k <= n);
                let reading = text_of_range(chars, from, from + k);
                assert(reading@ =~= chars@.skip(from as int).take(k as int));
                proof {
                    lemma_longest_is_a_word(
                        d.deep_view(),
                        chars@.skip(from as int),
                        chars@.len() - from,
                        1,
                        1,
                    );
                }
                match d.exact_match_search(reading.as_str()) {
                    None => None,
                    Some(entry) => {
                        let surface = entry.candidates[0].surface.clone();
                        Some((reading, surface))
                    },
                }
            },
        },
    }
}

/// The longest word of two characters or more that `chars[from..]` begins
/// with.
pub fn longest_system_reading_prefix(
    dict: &Option<Dictionary>,
    chars: &Vec<char>,
    from: usize,
) -> (r: Option<String>)
    requires
        from <= chars@.len(),
    ensures
        match r {
            Some(reading) => longest_reading(dict.deep_view(), chars@.skip(from as int)) == Some(
                reading@,
            ) && 2 <= reading@.len() <= chars@.len() - from,
            None => longest_reading(dict.deep_view(), chars@.skip(from as int)) is None,
        },
{
    let n: usize = chars.len();
    match dict {
        None => None,
        Some(d) => match d.longest_word_from(chars, from, 2, 0) {
            None => None,
            Some(k) => {
                assert(from + k <= n);
                let reading = text_of_range(chars, from, from + k);
                assert(reading@ =~= chars@.skip(from as int).take(k as int));
                Some(reading)
            },
        },
    }
}

/// A longest word is a word, and no longer prefix is one.
pub proof fn lemma_longest_is_a_word(
    dict: Seq<EntryView>,
    input: Seq<char>,
    k: int,
    least: int,
    surfaces: int,
)
    requires
        least >= 1,
    ensures
        match longest_word_up_to(dict, input, k, least, surfaces) {
            Some(n) => {
                &&& least <= n <= k
                &&& surfaces_of(dict, input.take(n)) matches Some(c)
                &&& c.len() >= surfaces
                &&& forall|m: int|
                    n < m <= k ==> !((#[trigger] surfaces_of(dict, input.take(m))) matches Some(c)
                        && c.len() >= surfaces)
            },
            None => forall|m: int|
                least <= m <= k ==> !((#[trigger] surfaces_of(dict, input.take(m))) matches Some(c)
                    && c.len() >= surfaces),
        },
    decreases k,
{
    if k > 0 && k >= least {
        lemma_longest_is_a_word(dict, input, k - 1, least, surfaces);
    }
}

} // verus!
