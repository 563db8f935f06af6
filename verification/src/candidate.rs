//! Conversion candidates and the list the user chooses from.

use vstd::prelude::*;
use crate::lists::add_item;

verus! {

/// Candidates shown on one page; the digit keys choose among them.
pub const CANDIDATES_PER_PAGE: usize = 9;

/// Where a candidate comes from.
#[derive(Debug, Clone, Copy, PartialEq, Eq, Structural)]
pub enum CandidateSource {
    UserDictionary,
    Learning,
    Model,
    Dictionary,
    Fallback,
    Rewriter,
}

impl DeepView for CandidateSource {
    type V = CandidateSource;

    open spec fn deep_view(&self) -> CandidateSource {
        *self
    }
}

/// A candidate while the list is being put together.
pub struct AnnotatedCandidate {
    pub text: String,
    pub source: CandidateSource,
    pub reading: Option<String>,
    pub description: Option<String>,
}

#[verifier::ext_equal]
pub struct AnnotatedView {
    pub text: Seq<char>,
    pub source: CandidateSource,
    pub reading: Option<Seq<char>>,
    pub description: Option<Seq<char>>,
}

impl DeepView for AnnotatedCandidate {
    type V = AnnotatedView;

    open spec fn deep_view(&self) -> AnnotatedView {
        AnnotatedView {
            text: self.text@,
            source: self.source,
            reading: self.reading.deep_view(),
            description: self.description.deep_view(),
        }
    }
}

impl Clone for AnnotatedCandidate {
    fn clone(&self) -> (r: Self)
        ensures
            r.deep_view() == self.deep_view(),
    {
        AnnotatedCandidate {
            text: self.text.clone(),
            source: self.source,
            reading: self.reading.clone(),
            description: self.description.clone(),
        }
    }
}

/// A candidate as it is shown.
pub struct Candidate {
    pub text: String,
    pub reading: Option<String>,
    pub source: Option<CandidateSource>,
    pub description: Option<String>,
}

#[verifier::ext_equal]
pub struct CandidateView {
    pub text: Seq<char>,
    pub reading: Option<Seq<char>>,
    pub source: Option<CandidateSource>,
    pub description: Option<Seq<char>>,
}

impl DeepView for Candidate {
    type V = CandidateView;

    open spec fn deep_view(&self) -> CandidateView {
        CandidateView {
            text: self.text@,
            reading: self.reading.deep_view(),
            source: self.source,
            description: self.description.deep_view(),
        }
    }
}

impl Clone for Candidate {
    fn clone(&self) -> (r: Self)
        ensures
            r.deep_view() == self.deep_view(),
    {
        Candidate {
            text: self.text.clone(),
            reading: self.reading.clone(),
            source: self.source,
            description: self.description.clone(),
        }
    }
}

/// A candidate with a text and a source alone.
pub open spec fn plain(text: Seq<char>, source: CandidateSource) -> AnnotatedView {
    AnnotatedView { text, source, reading: None, description: None }
}

impl AnnotatedCandidate {
    pub fn new(text: String, source: CandidateSource) -> (r: Self)
        ensures
            r.deep_view() == plain(text@, source),
    {
        AnnotatedCandidate { text, source, reading: None, description: None }
    }
}

impl Candidate {
    /// A candidate that is its own reading's text.
    pub fn with_reading(text: &str, reading: &str) -> (r: Self)
        ensures
            r.deep_view() == (CandidateView {
                text: text@,
                reading: Some(reading@),
                source: None,
                description: None,
            }),
    {
        Candidate {
            text: text.to_owned(),
            reading: Some(reading.to_owned()),
            source: None,
            description: None,
        }
    }

    /// Whether the user can remove the candidate from the learning history.
    pub fn is_deletable(&self) -> (r: bool)
        ensures
            r == (self.source == Some(CandidateSource::Learning)),
    {
        match self.source {
            Some(CandidateSource::Learning) => true,
            _ => false,
        }
    }
}

/// Some candidate of the list has this text.
pub open spec fn has_text(list: Seq<AnnotatedView>, text: Seq<char>) -> bool {
    exists|i: int| 0 <= i < list.len() && (#[trigger] list[i]).text == text
}

/// The list with a candidate added, unless its text is there already.
pub open spec fn added(list: Seq<AnnotatedView>, c: AnnotatedView) -> Seq<AnnotatedView> {
    if has_text(list, c.text) {
        list
    } else {
        list.push(c)
    }
}

/// The list with candidates added one after the other.
pub open spec fn added_all(list: Seq<AnnotatedView>, more: Seq<AnnotatedView>) -> Seq<AnnotatedView>
    decreases more.len(),
{
    if more.len() == 0 {
        list
    } else {
        added(added_all(list, more.drop_last()), more.last())
    }
}

/// No two candidates have the same text.
pub open spec fn distinct_texts(list: Seq<AnnotatedView>) -> bool {
    forall|i: int, j: int|
        0 <= i < j < list.len() ==> (#[trigger] list[i]).text != (#[trigger] list[j]).text
}

/// Puts together a list of candidates without duplicates: the text decides,
/// and what came first stays.
pub struct CandidateBuilder {
    pub candidates: Vec<AnnotatedCandidate>,
}

impl CandidateBuilder {
    pub fn new() -> (r: Self)
        ensures
            r.candidates.deep_view() == Seq::<AnnotatedView>::empty(),
    {
        let candidates: Vec<AnnotatedCandidate> = Vec::new();
        assert(candidates.deep_view() =~= Seq::<AnnotatedView>::empty());
        CandidateBuilder { candidates }
    }

    fn holds(&self, text: &String) -> (r: bool)
        ensures
            r == has_text(self.candidates.deep_view(), text@),
    {
        let mut i: usize = 0;
        while i < self.candidates.len()
            invariant
                i <= self.candidates@.len(),
                forall|k: int|
                    0 <= k < i ==> (#[trigger] self.candidates.deep_view()[k]).text != text@,
            decreases self.candidates@.len() - i,
        {
            assert(self.candidates.deep_view()[i as int]
                == self.candidates@[i as int].deep_view());
            if self.candidates[i].text == *text {
                return true;
            }
            i = i + 1;
        }
        false
    }

    /// Adds a candidate unless its text is there already.
    pub fn push(&mut self, ac: AnnotatedCandidate)
        ensures
            final(self).candidates.deep_view() == added(
                old(self).candidates.deep_view(),
                ac.deep_view(),
            ),
    {
        if !self.holds(&ac.text) {
            add_item(&mut self.candidates, ac);
        }
    }

    /// Adds candidates one after the other.
    pub fn push_all(&mut self, more: &Vec<AnnotatedCandidate>)
        ensures
            final(self).candidates.deep_view() == added_all(
                old(self).candidates.deep_view(),
                more.deep_view(),
            ),
    {
        let ghost start = self.candidates.deep_view();
        let ghost all = more.deep_view();
        let mut i: usize = 0;
        while i < more.len()
            invariant
                i <= more@.len(),
                all == more.deep_view(),
                self.candidates.deep_view() == added_all(start, all.take(i as int)),
            decreases more@.len() - i,
        {
            assert(all[i as int] == more@[i as int].deep_view());
            assert(all.take(i + 1).drop_last() =~= all.take(i as int));
            self.push(more[i].clone());
            i = i + 1;
        }
        assert(all.take(i as int) =~= all);
    }

    pub fn is_empty(&self) -> (r: bool)
        ensures
            r == (self.candidates.deep_view().len() == 0),
    {
        self.candidates.len() == 0
    }

    pub fn into_candidates(self) -> (r: Vec<AnnotatedCandidate>)
        ensures
            r.deep_view() == self.candidates.deep_view(),
    {
        self.candidates
    }
}

proof fn lemma_added_distinct(list: Seq<AnnotatedView>, c: AnnotatedView)
    requires
        distinct_texts(list),
    ensures
        distinct_texts(added(list, c)),
{
    let u = added(list, c);
    if !has_text(list, c.text) {
        assert forall|i: int, j: int| 0 <= i < j < u.len() implies (#[trigger] u[i]).text != (
        #[trigger] u[j]).text by {
            if j == list.len() {
                assert(list[i].text != c.text);
            } else {
                assert(list[i].text != list[j].text);
            }
        }
    }
}

/// Adding candidates to a list keeps what is there, keeps the texts distinct,
/// and leaves no given text out.
pub proof fn law_adding_keeps_texts_distinct(list: Seq<AnnotatedView>, more: Seq<AnnotatedView>)
    requires
        distinct_texts(list),
    ensures
        distinct_texts(added_all(list, more)),
        list.is_prefix_of(added_all(list, more)),
        forall|i: int| 0 <= i < more.len() ==> has_text(added_all(list, more), (#[trigger] more[i]).text),
        forall|i: int|
            list.len() <= i < added_all(list, more).len() ==> more.contains(
                #[trigger] added_all(list, more)[i],
            ),
    decreases more.len(),
{
    let u = added_all(list, more);
    if more.len() > 0 {
        let before = added_all(list, more.drop_last());
        law_adding_keeps_texts_distinct(list, more.drop_last());
        lemma_added_distinct(before, more.last());
        assert forall|i: int| 0 <= i < more.len() implies has_text(u, (#[trigger] more[i]).text) by {
            if i < more.len() - 1 {
                assert(has_text(before, more.drop_last()[i].text));
                let k = choose|k: int|
                    0 <= k < before.len() && (#[trigger] before[k]).text == more[i].text;
                assert(u[k].text == more[i].text);
            } else if !has_text(before, more.last().text) {
                assert(u[before.len() as int].text == more.last().text);
            }
        }
        assert forall|i: int| list.len() <= i < u.len() implies more.contains(#[trigger] u[i]) by {
            if i < before.len() {
                assert(more.drop_last().contains(before[i]));
                let k = choose|k: int| 0 <= k < more.drop_last().len() && more.drop_last()[k] == before[i];
                assert(more[k] == u[i]);
            } else {
                assert(more[more.len() - 1] == u[i]);
            }
        }
    }
}

/// The candidates of a clause and the one that is selected.
pub struct CandidateList {
    candidates: Vec<Candidate>,
    cursor: usize,
}

#[verifier::ext_equal]
pub struct ListView {
    pub candidates: Seq<CandidateView>,
    pub cursor: int,
}

impl DeepView for CandidateList {
    type V = ListView;

    closed spec fn deep_view(&self) -> ListView {
        ListView { candidates: self.candidates.deep_view(), cursor: self.cursor as int }
    }
}

impl Clone for CandidateList {
    fn clone(&self) -> (r: Self)
        ensures
            r.deep_view() == self.deep_view(),
    {
        let candidates = self.candidates.clone();
        assert(candidates.deep_view() =~= self.candidates.deep_view());
        CandidateList { candidates, cursor: self.cursor }
    }
}

/// A list with its first candidate selected.
pub open spec fn fresh_list(candidates: Seq<CandidateView>) -> ListView {
    ListView { candidates, cursor: 0 }
}

/// The selected candidate.
pub open spec fn selected(list: ListView) -> Option<CandidateView> {
    if 0 <= list.cursor < list.candidates.len() {
        Some(list.candidates[list.cursor])
    } else {
        None
    }
}

/// The text of the selected candidate, else `otherwise`.
pub open spec fn selected_or(list: ListView, otherwise: Seq<char>) -> Seq<char> {
    match selected(list) {
        Some(c) => c.text,
        None => otherwise,
    }
}

/// The cursor stands on a candidate, or at the start of an empty list.
pub open spec fn well_formed(list: ListView) -> bool {
    0 <= list.cursor && (list.cursor < list.candidates.len() || list.cursor == 0)
}

/// The first position of the page that the cursor is on.
pub open spec fn page_start(list: ListView) -> int {
    list.cursor - list.cursor % (CANDIDATES_PER_PAGE as int)
}

/// What a move does to a list.
#[derive(Debug, Clone, Copy, PartialEq, Eq, Structural)]
pub enum Navigation {
    Next,
    Previous,
    NextPage,
    PreviousPage,
    Digit(usize),
}

/// The position a move leads to. Single steps wrap around at the ends of the
/// list; pages do not, and a digit beyond the page or the list moves nothing.
pub open spec fn moved_cursor(list: ListView, how: Navigation) -> int {
    let len = list.candidates.len() as int;
    match how {
        Navigation::Next => if list.cursor + 1 < len {
            list.cursor + 1
        } else {
            0
        },
        Navigation::Previous => if len == 0 {
            0
        } else if list.cursor > 0 {
            list.cursor - 1
        } else {
            len - 1
        },
        Navigation::NextPage => if page_start(list) + CANDIDATES_PER_PAGE < len {
            page_start(list) + CANDIDATES_PER_PAGE
        } else {
            list.cursor
        },
        Navigation::PreviousPage => if page_start(list) >= CANDIDATES_PER_PAGE {
            page_start(list) - CANDIDATES_PER_PAGE
        } else {
            list.cursor
        },
        Navigation::Digit(digit) => if 1 <= digit <= CANDIDATES_PER_PAGE && page_start(list) + digit
            - 1 < len {
            page_start(list) + digit - 1
        } else {
            list.cursor
        },
    }
}

/// The list after a move.
pub open spec fn moved(list: ListView, how: Navigation) -> ListView {
    ListView { cursor: moved_cursor(list, how), ..list }
}

impl CandidateList {
    /// A list with its first candidate selected.
    pub fn new(candidates: Vec<Candidate>) -> (r: Self)
        ensures
            r.deep_view() == fresh_list(candidates.deep_view()),
    {
        CandidateList { candidates, cursor: 0 }
    }

    /// A list of texts that share a reading.
    pub fn from_strings_with_reading(texts: Vec<String>, reading: &str) -> (r: Self)
        ensures
            r.deep_view() == fresh_list(
                Seq::new(
                    texts@.len(),
                    |i: int|
                        CandidateView {
                            text: texts@[i]@,
                            reading: Some(reading@),
                            source: None,
                            description: None,
                        },
                ),
            ),
    {
        let mut candidates: Vec<Candidate> = Vec::new();
        let ghost goal = Seq::new(
            texts@.len(),
            |i: int|
                CandidateView {
                    text: texts@[i]@,
                    reading: Some(reading@),
                    source: None,
                    description: None,
                },
        );
        let mut i: usize = 0;
        assert(candidates.deep_view() =~= goal.take(0));
        while i < texts.len()
            invariant
                i <= texts@.len(),
                goal == Seq::new(
                    texts@.len(),
                    |i: int|
                        CandidateView {
                            text: texts@[i]@,
                            reading: Some(reading@),
                            source: None,
                            description: None,
                        },
                ),
                candidates.deep_view() == goal.take(i as int),
            decreases texts@.len() - i,
        {
            add_item(&mut candidates, Candidate::with_reading(texts[i].as_str(), reading));
            i = i + 1;
            assert(candidates.deep_view() =~= goal.take(i as int));
        }
        assert(goal.take(i as int) =~= goal);
        CandidateList::new(candidates)
    }

    pub fn len(&self) -> (n: usize)
        ensures
            n == self.deep_view().candidates.len(),
    {
        self.candidates.len()
    }

    pub fn is_empty(&self) -> (r: bool)
        ensures
            r == (self.deep_view().candidates.len() == 0),
    {
        self.candidates.len() == 0
    }

    pub fn cursor(&self) -> (n: usize)
        ensures
            n == self.deep_view().cursor,
    {
        self.cursor
    }

    pub fn candidates(&self) -> (r: &Vec<Candidate>)
        ensures
            r.deep_view() == self.deep_view().candidates,
    {
        &self.candidates
    }

    /// The selected candidate.
    pub fn selected(&self) -> (r: Option<&Candidate>)
        ensures
            match r {
                Some(c) => selected(self.deep_view()) == Some(c.deep_view()),
                None => selected(self.deep_view()) is None,
            },
    {
        if self.cursor < self.candidates.len() {
            assert(self.candidates.deep_view()[self.cursor as int]
                == self.candidates@[self.cursor as int].deep_view());
            Some(&self.candidates[self.cursor])
        } else {
            None
        }
    }

    /// The text of the selected candidate.
    pub fn selected_text(&self) -> (r: Option<&str>)
        ensures
            match r {
                Some(text) => selected(self.deep_view()) matches Some(c) && c.text == text@,
                None => selected(self.deep_view()) is None,
            },
    {
        match self.selected() {
            Some(c) => Some(c.text.as_str()),
            None => None,
        }
    }

    /// Moves the selection.
    pub fn navigate(&mut self, how: Navigation)
        ensures
            final(self).deep_view() == moved(old(self).deep_view(), how),
    {
        let len: usize = self.candidates.len();
        let start: usize = self.cursor - self.cursor % CANDIDATES_PER_PAGE;
        match how {
            Navigation::Next => {
                self.cursor = if len > 0 && self.cursor < len - 1 {
                    self.cursor + 1
                } else {
                    0
                };
            },
            Navigation::Previous => {
                self.cursor = if len == 0 {
                    0
                } else if self.cursor > 0 {
                    self.cursor - 1
                } else {
                    len - 1
                };
            },
            Navigation::NextPage => {
                if start < len && len - start > CANDIDATES_PER_PAGE {
                    self.cursor = start + CANDIDATES_PER_PAGE;
                }
            },
            Navigation::PreviousPage => {
                if start >= CANDIDATES_PER_PAGE {
                    self.cursor = start - CANDIDATES_PER_PAGE;
                }
            },
            Navigation::Digit(digit) => {
                if 1 <= digit && digit <= CANDIDATES_PER_PAGE && start < len && digit - 1 < len
                    - start {
                    self.cursor = start + (digit - 1);
                }
            },
        }
    }
}

/// A candidate as it is shown for a reading: one without a reading of its own
/// gets that of the clause.
pub open spec fn shown_candidate(c: AnnotatedView, reading: Seq<char>) -> CandidateView {
    CandidateView {
        text: c.text,
        reading: match c.reading {
            Some(own) => Some(own),
            None => Some(reading),
        },
        source: Some(c.source),
        description: c.description,
    }
}

/// The candidates as they are shown for a reading.
pub open spec fn shown_list(list: Seq<AnnotatedView>, reading: Seq<char>) -> ListView {
    fresh_list(Seq::new(list.len(), |i: int| shown_candidate(list[i], reading)))
}

/// The list of candidates that is shown for a reading.
pub fn annotated_to_candidate_list(candidates: Vec<AnnotatedCandidate>, reading: &str) -> (r:
    CandidateList)
    ensures
        r.deep_view() == shown_list(candidates.deep_view(), reading@),
{
    let ghost all = candidates.deep_view();
    let ghost goal = shown_list(all, reading@).candidates;
    let mut out: Vec<Candidate> = Vec::new();
    let mut i: usize = 0;
    while i < candidates.len()
        invariant
            i <= candidates@.len(),
            all == candidates.deep_view(),
            goal == shown_list(all, reading@).candidates,
            out.deep_view() == goal.take(i as int),
        decreases candidates@.len() - i,
    {
        let c = &candidates[i];
        assert(all[i as int] == c.deep_view());
        let own: Option<String> = match &c.reading {
            Some(r) => Some(r.clone()),
            None => Some(reading.to_owned()),
        };
        add_item(
            &mut out,
            Candidate {
                text: c.text.clone(),
                reading: own,
                source: Some(c.source),
                description: c.description.clone(),
            },
        );
        i = i + 1;
        assert(out.deep_view() =~= goal.take(i as int));
    }
    assert(goal.take(i as int) =~= goal);
    CandidateList::new(out)
}

/// The texts in order, each only where it first occurs.
pub open spec fn first_occurrences(texts: Seq<Seq<char>>) -> Seq<Seq<char>>
    decreases texts.len(),
{
    if texts.len() == 0 {
        Seq::empty()
    } else {
        let before = first_occurrences(texts.drop_last());
        if texts.drop_last().contains(texts.last()) {
            before
        } else {
            before.push(texts.last())
        }
    }
}

/// The first `n` items, or all where there are fewer.
pub open spec fn at_most<A>(s: Seq<A>, n: int) -> Seq<A> {
    if n < s.len() {
        s.take(n)
    } else {
        s
    }
}

fn holds_text(texts: &Vec<String>, text: &String) -> (r: bool)
    ensures
        r == texts.deep_view().contains(text@),
{
    let mut i: usize = 0;
    while i < texts.len()
        invariant
            i <= texts@.len(),
            forall|k: int| 0 <= k < i ==> #[trigger] texts.deep_view()[k] != text@,
        decreases texts@.len() - i,
    {
        assert(texts.deep_view()[i as int] == texts@[i as int]@);
        if texts[i] == *text {
            return true;
        }
        i = i + 1;
    }
    false
}

proof fn lemma_first_occurrences_hold(texts: Seq<Seq<char>>, text: Seq<char>)
    ensures
        first_occurrences(texts).contains(text) == texts.contains(text),
    decreases texts.len(),
{
    if texts.len() > 0 {
        lemma_first_occurrences_hold(texts.drop_last(), text);
        let before = first_occurrences(texts.drop_last());
        let now = first_occurrences(texts);
        let last = texts.last();
        if texts.contains(text) {
            if text == last {
                if texts.drop_last().contains(last) {
                } else {
                    assert(now[before.len() as int] == text);
                }
            } else {
                let k = choose|k: int| 0 <= k < texts.len() && texts[k] == text;
                assert(texts.drop_last()[k] == text);
                let j = choose|j: int| 0 <= j < before.len() && before[j] == text;
                assert(now[j] == text);
            }
        }
        if now.contains(text) {
            let j = choose|j: int| 0 <= j < now.len() && now[j] == text;
            if j < before.len() {
                assert(before[j] == text);
                let k = choose|k: int|
                    0 <= k < texts.drop_last().len() && texts.drop_last()[k] == text;
                assert(texts[k] == text);
            } else {
                assert(texts[texts.len() - 1] == text);
            }
        }
    }
}

fn add_new_texts(out: &mut Vec<String>, texts: &Vec<String>, Ghost(seen): Ghost<Seq<Seq<char>>>)
    requires
        old(out).deep_view() == first_occurrences(seen),
    ensures
        final(out).deep_view() == first_occurrences(seen + texts.deep_view()),
{
    let ghost all = texts.deep_view();
    assert(seen + all.take(0) =~= seen);
    let mut i: usize = 0;
    while i < texts.len()
        invariant
            i <= texts@.len(),
            all == texts.deep_view(),
            out.deep_view() == first_occurrences(seen + all.take(i as int)),
        decreases texts@.len() - i,
    {
        assert(all[i as int] == texts@[i as int]@);
        let ghost so_far = seen + all.take(i as int);
        let ghost next = seen + all.take(i + 1);
        proof {
            assert(next.drop_last() =~= so_far);
            assert(next.last() == all[i as int]);
            lemma_first_occurrences_hold(so_far, all[i as int]);
        }
        if !holds_text(out, &texts[i]) {
            add_item(out, texts[i].clone());
        }
        i = i + 1;
    }
    assert(all.take(i as int) =~= all);
}

/// Two lists as one: the first, then what the second has besides, at most
/// `max_candidates` in all and none twice.
pub fn merge_candidates_dedup(
    primary: Vec<String>,
    secondary: Vec<String>,
    max_candidates: usize,
) -> (r: Vec<String>)
    ensures
        r.deep_view() == at_most(
            first_occurrences(primary.deep_view() + secondary.deep_view()),
            max_candidates as int,
        ),
{
    let mut out: Vec<String> = Vec::new();
    assert(out.deep_view() =~= first_occurrences(Seq::empty()));
    add_new_texts(&mut out, &primary, Ghost(Seq::empty()));
    assert(Seq::empty() + primary.deep_view() =~= primary.deep_view());
    add_new_texts(&mut out, &secondary, Ghost(primary.deep_view()));
    let ghost all = out.deep_view();
    if out.len() > max_candidates {
        out.truncate(max_candidates);
        assert(out.deep_view() =~= all.take(max_candidates as int));
    }
    out
}

/// Moving the selection forward and then back leads where it began, and the
/// other way round.
pub proof fn law_next_and_previous_undo_each_other(list: ListView)
    requires
        well_formed(list),
    ensures
        moved(moved(list, Navigation::Next), Navigation::Previous) == list,
        moved(moved(list, Navigation::Previous), Navigation::Next) == list,
{
}

/// Moving the selection never leaves the list and never changes a candidate.
pub proof fn law_navigation_keeps_the_candidates(list: ListView, how: Navigation)
    requires
        well_formed(list),
    ensures
        well_formed(moved(list, how)),
        moved(list, how).candidates == list.candidates,
{
}

} // verus!
