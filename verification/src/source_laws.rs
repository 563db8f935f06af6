//! What the candidates of a reading are, told by the dictionaries, the history
//! and the services they come from.

use vstd::prelude::*;
use crate::advice::{AdviceView, LearnedView, RewriteView};
use crate::candidate::{AnnotatedView, CandidateSource, CandidateView};
use crate::candidate;
use crate::dictionary::{EntryView, SurfaceView};
use crate::dictionary;
use crate::kana;
use crate::sources::Setting;
use crate::sources;

verus! {

/// A dictionary has a surface for a reading: the first entry of the reading
/// holds it, at this score.
pub open spec fn has_word(
    dict: Option<Seq<EntryView>>,
    reading: Seq<char>,
    word: SurfaceView,
) -> bool {
    dict matches Some(d) && exists|i: int|
        {
            &&& 0 <= i < d.len()
            &&& (#[trigger] d[i]).reading == reading
            &&& d[i].candidates.contains(word)
            &&& forall|k: int| 0 <= k < i ==> (#[trigger] d[k]).reading != reading
        }
}

/// A dictionary has a surface for a reading.
pub open spec fn lists(dict: Option<Seq<EntryView>>, reading: Seq<char>, surface: Seq<char>) -> bool {
    exists|word: SurfaceView| #[trigger] has_word(dict, reading, word) && word.surface == surface
}

/// No entry of a dictionary holds more surfaces than a machine can count.
pub open spec fn countable(dict: Option<Seq<EntryView>>) -> bool {
    dict matches Some(d) ==> forall|i: int|
        0 <= i < d.len() ==> 2 * (#[trigger] d[i]).candidates.len() <= usize::MAX
}

/// A text is offered.
pub open spec fn offered(shown: Seq<AnnotatedView>, text: Seq<char>) -> bool {
    exists|i: int| 0 <= i < shown.len() && (#[trigger] shown[i]).text == text
}

/// The surfaces of a reading are those of its first entry; there are none
/// where no entry has the reading.
pub proof fn lemma_surfaces(d: Seq<EntryView>, reading: Seq<char>)
    ensures
        match dictionary::surfaces_of(d, reading) {
            Some(c) => exists|i: int|
                {
                    &&& 0 <= i < d.len()
                    &&& (#[trigger] d[i]).reading == reading
                    &&& d[i].candidates == c
                    &&& forall|k: int| 0 <= k < i ==> (#[trigger] d[k]).reading != reading
                },
            None => forall|k: int| 0 <= k < d.len() ==> (#[trigger] d[k]).reading != reading,
        },
    decreases d.len(),
{
    if d.len() > 0 {
        if d[0].reading == reading {
        } else {
            let rest = d.drop_first();
            lemma_surfaces(rest, reading);
            match dictionary::surfaces_of(rest, reading) {
                Some(c) => {
                    let i = choose|i: int|
                        {
                            &&& 0 <= i < rest.len()
                            &&& (#[trigger] rest[i]).reading == reading
                            &&& rest[i].candidates == c
                            &&& forall|k: int|
                                0 <= k < i ==> (#[trigger] rest[k]).reading != reading
                        };
                    assert(d[i + 1] == rest[i]);
                    assert forall|k: int| 0 <= k < i + 1 implies (#[trigger] d[k]).reading
                        != reading by {
                        if k > 0 {
                            assert(d[k] == rest[k - 1]);
                        }
                    }
                },
                None => {
                    assert forall|k: int| 0 <= k < d.len() implies (#[trigger] d[k]).reading
                        != reading by {
                        if k > 0 {
                            assert(d[k] == rest[k - 1]);
                        }
                    }
                },
            }
        }
    }
}

/// The surfaces of a reading are those of its first entry.
pub proof fn law_the_first_entry_counts(
    dict: Option<Seq<EntryView>>,
    reading: Seq<char>,
    word: SurfaceView,
)
    ensures
        sources::known_surfaces(dict, reading).contains(word) <==> has_word(dict, reading, word),
{
    if let Some(d) = dict {
        lemma_surfaces(d, reading);
        if has_word(dict, reading, word) {
            let i = choose|i: int|
                {
                    &&& 0 <= i < d.len()
                    &&& (#[trigger] d[i]).reading == reading
                    &&& d[i].candidates.contains(word)
                    &&& forall|k: int| 0 <= k < i ==> (#[trigger] d[k]).reading != reading
                };
            let c = dictionary::surfaces_of(d, reading)->0;
            let j = choose|j: int|
                {
                    &&& 0 <= j < d.len()
                    &&& (#[trigger] d[j]).reading == reading
                    &&& d[j].candidates == c
                    &&& forall|k: int| 0 <= k < j ==> (#[trigger] d[k]).reading != reading
                };
            assert(i == j) by {
                if i < j {
                    assert(d[i].reading != reading);
                } else if j < i {
                    assert(d[j].reading != reading);
                }
            }
        }
    }
}

/// Where the items of a list come from when others are added to it: `from[k]`
/// is the place of item `list.len() + k` among those that were added.
pub open spec fn drawn(
    list: Seq<AnnotatedView>,
    more: Seq<AnnotatedView>,
    all: Seq<AnnotatedView>,
    from: Seq<int>,
) -> bool {
    &&& all.len() == list.len() + from.len()
    &&& forall|k: int| 0 <= k < list.len() ==> #[trigger] all[k] == list[k]
    &&& forall|k: int|
        0 <= k < from.len() ==> 0 <= #[trigger] from[k] < more.len() && all[list.len() + k]
            == more[from[k]]
    &&& forall|k: int, l: int| 0 <= k < l < from.len() ==> #[trigger] from[k] < #[trigger] from[l]
}

proof fn lemma_drawn(list: Seq<AnnotatedView>, more: Seq<AnnotatedView>) -> (from: Seq<int>)
    ensures
        drawn(list, more, candidate::added_all(list, more), from),
    decreases more.len(),
{
    if more.len() == 0 {
        Seq::empty()
    } else {
        let before = more.drop_last();
        let from = lemma_drawn(list, before);
        let half = candidate::added_all(list, before);
        let all = candidate::added_all(list, more);
        if candidate::has_text(half, more.last().text) {
            assert forall|k: int| 0 <= k < from.len() implies 0 <= #[trigger] from[k] < more.len()
                && all[list.len() + k] == more[from[k]] by {
                assert(before[from[k]] == more[from[k]]);
            }
            from
        } else {
            let next = from.push(more.len() - 1);
            assert forall|k: int| 0 <= k < next.len() implies 0 <= #[trigger] next[k] < more.len()
                && all[list.len() + k] == more[next[k]] by {
                if k < from.len() {
                    assert(before[from[k]] == more[from[k]]);
                }
            }
            assert forall|k: int, l: int| 0 <= k < l < next.len() implies #[trigger] next[k]
                < #[trigger] next[l] by {
                if l < from.len() {
                    assert(from[k] < from[l]);
                } else {
                    assert(0 <= from[k] < before.len());
                }
            }
            next
        }
    }
}

/// Where dictionary hits come from: `from[k]` is the place of hit
/// `list.len() + k` among the surfaces.
#[verifier::opaque]
pub open spec fn hit_from(
    list: Seq<AnnotatedView>,
    surfaces: Seq<SurfaceView>,
    source: CandidateSource,
    all: Seq<AnnotatedView>,
    from: Seq<int>,
) -> bool {
    &&& all.len() == list.len() + from.len()
    &&& forall|k: int| 0 <= k < list.len() ==> #[trigger] all[k] == list[k]
    &&& forall|k: int|
        0 <= k < from.len() ==> 0 <= #[trigger] from[k] < surfaces.len() && all[list.len() + k]
            == candidate::plain(surfaces[from[k]].surface, source)
    &&& forall|k: int, l: int| 0 <= k < l < from.len() ==> #[trigger] from[k] < #[trigger] from[l]
}

/// One hit, and where it comes from.
proof fn lemma_hit(
    list: Seq<AnnotatedView>,
    surfaces: Seq<SurfaceView>,
    source: CandidateSource,
    all: Seq<AnnotatedView>,
    from: Seq<int>,
    k: int,
)
    requires
        hit_from(list, surfaces, source, all, from),
        0 <= k < all.len() - list.len(),
    ensures
        from.len() == all.len() - list.len(),
        0 <= from[k] < surfaces.len(),
        all[list.len() + k] == candidate::plain(surfaces[from[k]].surface, source),
{
    reveal(hit_from);
    assert(0 <= from[k] < surfaces.len());
}

proof fn lemma_hits(
    list: Seq<AnnotatedView>,
    surfaces: Seq<SurfaceView>,
    source: CandidateSource,
    limit: int,
) -> (from: Seq<int>)
    ensures
        hit_from(list, surfaces, source, sources::with_hits(list, surfaces, source, limit), from),
        list.len() + surfaces.len() <= limit ==> forall|k: int|
            0 <= k < surfaces.len() ==> offered(
                sources::with_hits(list, surfaces, source, limit),
                (#[trigger] surfaces[k]).surface,
            ),
    decreases surfaces.len(),
{
    reveal(hit_from);
    let all = sources::with_hits(list, surfaces, source, limit);
    if surfaces.len() == 0 {
        Seq::empty()
    } else {
        let before = surfaces.drop_last();
        let from = lemma_hits(list, before, source, limit);
        let half = sources::with_hits(list, before, source, limit);
        let next = if all.len() == half.len() {
            from
        } else {
            from.push(surfaces.len() - 1)
        };
        assert forall|k: int| 0 <= k < next.len() implies 0 <= #[trigger] next[k] < surfaces.len()
            && all[list.len() + k] == candidate::plain(surfaces[next[k]].surface, source) by {
            if k < from.len() {
                assert(next[k] == from[k]);
                assert(before[from[k]] == surfaces[from[k]]);
            }
        }
        assert forall|k: int, l: int| 0 <= k < l < next.len() implies #[trigger] next[k]
            < #[trigger] next[l] by {
            if l < from.len() {
                assert(from[k] < from[l]);
            } else {
                assert(0 <= from[k] < before.len());
            }
        }
        assert forall|k: int| 0 <= k < half.len() implies all[k] == half[k] by {
        }
        if list.len() + surfaces.len() <= limit {
            assert(half.len() < limit) by {
                lemma_few(from, before.len() as int);
            }
            assert forall|k: int| 0 <= k < surfaces.len() implies offered(
                all,
                (#[trigger] surfaces[k]).surface,
            ) by {
                if k < before.len() {
                    assert(offered(half, before[k].surface));
                    let j = choose|j: int|
                        0 <= j < half.len() && (#[trigger] half[j]).text == before[k].surface;
                    assert(all[j].text == surfaces[k].surface);
                } else if candidate::has_text(half, surfaces[k].surface) {
                    let j = choose|j: int|
                        0 <= j < half.len() && (#[trigger] half[j]).text == surfaces[k].surface;
                    assert(all[j].text == surfaces[k].surface);
                } else {
                    assert(all[half.len() as int].text == surfaces[k].surface);
                }
            }
        }
        next
    }
}

/// Growing places below `n` are at most `n`.
proof fn lemma_few(from: Seq<int>, n: int)
    requires
        n >= 0,
        forall|k: int| 0 <= k < from.len() ==> 0 <= #[trigger] from[k] < n,
        forall|k: int, l: int| 0 <= k < l < from.len() ==> #[trigger] from[k] < #[trigger] from[l],
    ensures
        from.len() <= n,
    decreases n,
{
    if from.len() > 0 {
        let last = from[from.len() - 1];
        let before = from.drop_last();
        assert forall|k: int| 0 <= k < before.len() implies 0 <= #[trigger] before[k] < last by {
            assert(from[k] < from[from.len() - 1]);
        }
        assert forall|k: int, l: int| 0 <= k < l < before.len() implies #[trigger] before[k]
            < #[trigger] before[l] by {
            assert(from[k] < from[l]);
        }
        lemma_few(before, last);
    }
}

proof fn lemma_filter_kept(list: Seq<AnnotatedView>, source: CandidateSource)
    requires
        forall|i: int| 0 <= i < list.len() ==> (#[trigger] list[i]).source == source,
    ensures
        sources::only_from(list, source) == list,
    decreases list.len(),
{
    reveal(Seq::filter);
    if list.len() > 0 {
        assert(list[list.len() - 1].source == source);
        lemma_filter_kept(list.drop_last(), source);
        assert(list.drop_last().push(list.last()) =~= list);
    }
}

proof fn lemma_filter_dropped(list: Seq<AnnotatedView>, source: CandidateSource)
    requires
        forall|i: int| 0 <= i < list.len() ==> (#[trigger] list[i]).source != source,
    ensures
        sources::only_from(list, source) == Seq::<AnnotatedView>::empty(),
    decreases list.len(),
{
    reveal(Seq::filter);
    if list.len() > 0 {
        assert(list[list.len() - 1].source != source);
        lemma_filter_dropped(list.drop_last(), source);
    }
}

/// The hits of the two dictionaries: those of the registered words, then those
/// of the system dictionary.
proof fn lemma_two_dictionaries(
    user: Option<Seq<EntryView>>,
    system: Option<Seq<EntryView>>,
    reading: Seq<char>,
) -> (r: (Seq<AnnotatedView>, Seq<AnnotatedView>, Seq<int>, Seq<int>))
    ensures
        ({
            let hits = sources::dictionary_candidates(user, system, reading, usize::MAX as int);
            let (first, second, a, b) = r;
            &&& hits == first + second
            &&& sources::only_from(hits, CandidateSource::UserDictionary) == first
            &&& sources::only_from(hits, CandidateSource::Dictionary) == second
            &&& hit_from(
                Seq::empty(),
                sources::known_surfaces(user, reading),
                CandidateSource::UserDictionary,
                first,
                a,
            )
            &&& hit_from(
                Seq::empty(),
                sources::by_score(sources::known_surfaces(system, reading)),
                CandidateSource::Dictionary,
                second,
                b,
            )
        }),
{
    let u = sources::known_surfaces(user, reading);
    let s = sources::by_score(sources::known_surfaces(system, reading));
    let limit = usize::MAX as int;
    let hits = sources::dictionary_candidates(user, system, reading, limit);
    let first = sources::with_hits(Seq::empty(), u, CandidateSource::UserDictionary, limit);
    let a = lemma_hits(Seq::empty(), u, CandidateSource::UserDictionary, limit);
    let b = lemma_hits(first, s, CandidateSource::Dictionary, limit);
    reveal(hit_from);
    let second = hits.skip(first.len() as int);
    assert(hits =~= first + second);
    assert forall|i: int| 0 <= i < first.len() implies (#[trigger] first[i]).source
        == CandidateSource::UserDictionary by {
        assert(0 <= a[i] < u.len());
    }
    assert forall|i: int| 0 <= i < second.len() implies #[trigger] second[i] == candidate::plain(
        s[b[i]].surface,
        CandidateSource::Dictionary,
    ) && 0 <= b[i] < s.len() by {
        assert(0 <= b[i] < s.len());
        assert(second[i] == hits[first.len() + i]);
    }
    lemma_filter_kept(first, CandidateSource::UserDictionary);
    lemma_filter_dropped(first, CandidateSource::Dictionary);
    lemma_filter_kept(second, CandidateSource::Dictionary);
    lemma_filter_dropped(second, CandidateSource::UserDictionary);
    Seq::filter_distributes_over_add(
        first,
        second,
        |c: AnnotatedView| c.source == CandidateSource::UserDictionary,
    );
    Seq::filter_distributes_over_add(
        first,
        second,
        |c: AnnotatedView| c.source == CandidateSource::Dictionary,
    );
    assert(first + Seq::<AnnotatedView>::empty() =~= first);
    assert(Seq::<AnnotatedView>::empty() + second =~= second);
    assert forall|k: int| 0 <= k < b.len() implies 0 <= #[trigger] b[k] < s.len()
        && second[k] == candidate::plain(s[b[k]].surface, CandidateSource::Dictionary) by {
        assert(second[k] == hits[first.len() + k]);
    }
    (first, second, a, b)
}

/// The hits of each dictionary, and where they come from.
proof fn lemma_dictionary_parts(
    user: Option<Seq<EntryView>>,
    system: Option<Seq<EntryView>>,
    reading: Seq<char>,
    words: Seq<AnnotatedView>,
    surfaces: Seq<AnnotatedView>,
) -> (r: (Seq<int>, Seq<int>))
    requires
        words == sources::only_from(
            sources::dictionary_candidates(user, system, reading, usize::MAX as int),
            CandidateSource::UserDictionary,
        ),
        surfaces == sources::only_from(
            sources::dictionary_candidates(user, system, reading, usize::MAX as int),
            CandidateSource::Dictionary,
        ),
    ensures
        hit_from(
            Seq::empty(),
            sources::known_surfaces(user, reading),
            CandidateSource::UserDictionary,
            words,
            r.0,
        ),
        hit_from(
            Seq::empty(),
            sources::by_score(sources::known_surfaces(system, reading)),
            CandidateSource::Dictionary,
            surfaces,
            r.1,
        ),
{
    let (first, second, a, b) = lemma_two_dictionaries(user, system, reading);
    (a, b)
}

proof fn lemma_scored(surfaces: Seq<SurfaceView>, word: SurfaceView)
    ensures
        sources::by_score(surfaces).contains(word) <==> surfaces.contains(word),
        sources::by_score(surfaces).len() == surfaces.len(),
{
    sources::law_scores_are_ascending(surfaces);
    broadcast use vstd::seq_lib::group_to_multiset_ensures;

    let sorted = sources::by_score(surfaces);
    assert(sorted.to_multiset().count(word) == surfaces.to_multiset().count(word));
    assert(sorted.to_multiset().len() == surfaces.to_multiset().len());
}

proof fn lemma_offered_later(a: Seq<AnnotatedView>, b: Seq<AnnotatedView>, text: Seq<char>)
    requires
        a.is_prefix_of(b),
        offered(a, text),
    ensures
        offered(b, text),
{
    let i = choose|i: int| 0 <= i < a.len() && (#[trigger] a[i]).text == text;
    assert(b[i] == a[i]);
}

proof fn lemma_adds(list: Seq<AnnotatedView>, more: Seq<AnnotatedView>, text: Seq<char>)
    requires
        candidate::distinct_texts(list),
    ensures
        candidate::distinct_texts(candidate::added_all(list, more)),
        offered(candidate::added_all(list, more), text) <==> offered(list, text) || offered(
            more,
            text,
        ),
{
    candidate::law_adding_keeps_texts_distinct(list, more);
    let all = candidate::added_all(list, more);
    if offered(list, text) {
        lemma_offered_later(list, all, text);
    }
    if offered(more, text) {
        let k = choose|k: int| 0 <= k < more.len() && (#[trigger] more[k]).text == text;
        assert(candidate::has_text(all, more[k].text));
    }
    if offered(all, text) {
        let i = choose|i: int| 0 <= i < all.len() && (#[trigger] all[i]).text == text;
        if i < list.len() {
            assert(list[i] == all[i]);
        } else {
            assert(more.contains(all[i]));
            let k = choose|k: int| 0 <= k < more.len() && more[k] == all[i];
            assert(more[k].text == text);
        }
    }
}

/// A learned conversion stands in a list of candidates.
pub open spec fn recalls(list: Seq<CandidateView>, text: Seq<char>) -> bool {
    exists|k: int| 0 <= k < list.len() && (#[trigger] list[k]).text == text
}

/// A reading has a text: some source that counts gives it.
pub open spec fn source_gives(
    setting: Setting,
    reading: Seq<char>,
    advice: AdviceView,
    skip_learning: bool,
    text: Seq<char>,
) -> bool {
    ||| lists(setting.user, reading, text)
    ||| lists(setting.system, reading, text)
    ||| !skip_learning && recalls(
        sources::learned_candidates(
            setting.learning,
            reading,
            advice.learned_exact,
            advice.learned_prefix,
        ),
        text,
    )
    ||| advice.model.contains(text)
    ||| !setting.emoji && (text == reading || text == kana::in_katakana(reading))
    ||| exists|k: int|
        0 <= k < advice.rewrites.len() && (#[trigger] advice.rewrites[k]).text == text
}

proof fn lemma_one_more(list: Seq<AnnotatedView>, c: AnnotatedView, text: Seq<char>)
    requires
        candidate::distinct_texts(list),
    ensures
        candidate::distinct_texts(candidate::added(list, c)),
        offered(candidate::added(list, c), text) <==> offered(list, text) || text == c.text,
{
    let one = seq![c];
    assert(one.drop_last() =~= Seq::empty());
    assert(candidate::added_all(list, Seq::empty()) == list);
    assert(candidate::added(list, c) == candidate::added_all(list, one));
    lemma_adds(list, one, text);
    assert(one[0].text == c.text);
}

proof fn lemma_dictionary_texts(
    user: Option<Seq<EntryView>>,
    system: Option<Seq<EntryView>>,
    reading: Seq<char>,
    text: Seq<char>,
)
    requires
        countable(user),
        countable(system),
    ensures
        offered(
            sources::dictionary_candidates(user, system, reading, usize::MAX as int),
            text,
        ) <==> lists(user, reading, text) || lists(system, reading, text),
{
    let u = sources::known_surfaces(user, reading);
    let known = sources::known_surfaces(system, reading);
    let s = sources::by_score(known);
    let limit = usize::MAX as int;
    if let Some(d) = user {
        lemma_surfaces(d, reading);
    }
    if let Some(d) = system {
        lemma_surfaces(d, reading);
    }
    assert(2 * u.len() <= usize::MAX);
    assert(2 * known.len() <= usize::MAX);
    let first = sources::with_hits(Seq::empty(), u, CandidateSource::UserDictionary, limit);
    let hits = sources::with_hits(first, s, CandidateSource::Dictionary, limit);
    let a = lemma_hits(Seq::empty(), u, CandidateSource::UserDictionary, limit);
    let b = lemma_hits(first, s, CandidateSource::Dictionary, limit);
    reveal(hit_from);
    lemma_few(a, u.len() as int);
    assert(s.len() == known.len()) by {
        lemma_scored(known, SurfaceView { surface: text, score: 0 });
    }
    assert(first.is_prefix_of(hits)) by {
        assert(first =~= hits.take(first.len() as int));
    }
    if lists(user, reading, text) {
        let word = choose|word: SurfaceView|
            #[trigger] has_word(user, reading, word) && word.surface == text;
        law_the_first_entry_counts(user, reading, word);
        let k = choose|k: int| 0 <= k < u.len() && u[k] == word;
        assert(offered(first, u[k].surface));
        lemma_offered_later(first, hits, text);
    }
    if lists(system, reading, text) {
        let word = choose|word: SurfaceView|
            #[trigger] has_word(system, reading, word) && word.surface == text;
        law_the_first_entry_counts(system, reading, word);
        lemma_scored(known, word);
        let k = choose|k: int| 0 <= k < s.len() && s[k] == word;
        assert(offered(hits, s[k].surface));
    }
    if offered(hits, text) {
        let i = choose|i: int| 0 <= i < hits.len() && (#[trigger] hits[i]).text == text;
        if i < first.len() {
            let word = u[a[i]];
            assert(hits[i] == first[i]);
            assert(0 <= a[i] < u.len());
            assert(u.contains(word));
            law_the_first_entry_counts(user, reading, word);
            assert(has_word(user, reading, word) && word.surface == text);
        } else {
            let k = i - first.len();
            let word = s[b[k]];
            assert(0 <= b[k] < s.len());
            assert(s.contains(word));
            lemma_scored(known, word);
            law_the_first_entry_counts(system, reading, word);
            assert(has_word(system, reading, word) && word.surface == text);
        }
    }
}

/// What is offered for a reading is exactly what its sources give: every
/// surface that the registered words or the system dictionary have for it, the
/// conversions of the model, its kana forms unless an emoji is looked for, its
/// variants, and, unless learning is skipped, what the history recalls.
pub proof fn law_all_sources_are_offered_and_no_more(
    setting: Setting,
    reading: Seq<char>,
    advice: AdviceView,
    skip_learning: bool,
    text: Seq<char>,
)
    requires
        countable(setting.user),
        countable(setting.system),
    ensures
        offered(sources::conversion_candidates(setting, reading, advice, skip_learning), text)
            <==> source_gives(setting, reading, advice, skip_learning, text),
{
    let hits = sources::dictionary_candidates(
        setting.user,
        setting.system,
        reading,
        usize::MAX as int,
    );
    let first = sources::only_from(hits, CandidateSource::UserDictionary);
    let second = sources::only_from(hits, CandidateSource::Dictionary);
    lemma_dictionary_texts(setting.user, setting.system, reading, text);
    lemma_parted_texts(setting.user, setting.system, reading, text);
    let recalled = sources::learned_candidates(
        setting.learning,
        reading,
        advice.learned_exact,
        advice.learned_prefix,
    );
    let learned = sources::all_as_learning(recalled, reading);
    let model = sources::all_as_model(advice.model);
    let typed = candidate::plain(reading, CandidateSource::Fallback);
    let katakana = candidate::plain(kana::in_katakana(reading), CandidateSource::Fallback);
    let rewrites = sources::all_as_rewrites(advice.rewrites);
    lemma_same_texts(recalled, learned, text);
    lemma_model_texts(advice, text);
    let a0 = candidate::added_all(Seq::empty(), first);
    lemma_adds(Seq::empty(), first, text);
    let a1 = sources::known_conversions(setting, reading, advice, skip_learning);
    lemma_adds(a0, learned, text);
    let a2 = sources::with_model(setting, reading, advice, skip_learning);
    lemma_adds(a1, model, text);
    let a3 = candidate::added_all(a2, second);
    lemma_adds(a2, second, text);
    lemma_one_more(a3, typed, text);
    lemma_one_more(candidate::added(a3, typed), katakana, text);
    let a4 = if setting.emoji {
        a3
    } else {
        candidate::added(candidate::added(a3, typed), katakana)
    };
    lemma_adds(a4, rewrites, text);
    let all = sources::all_candidates(setting, reading, advice, skip_learning);
    assert(all == candidate::added_all(a4, rewrites));
    lemma_described_texts(setting, reading, advice, skip_learning, text);
}

proof fn lemma_described_texts(
    setting: Setting,
    reading: Seq<char>,
    advice: AdviceView,
    skip_learning: bool,
    text: Seq<char>,
)
    ensures
        offered(sources::conversion_candidates(setting, reading, advice, skip_learning), text)
            <==> offered(sources::all_candidates(setting, reading, advice, skip_learning), text),
{
    let all = sources::all_candidates(setting, reading, advice, skip_learning);
    let shown = sources::conversion_candidates(setting, reading, advice, skip_learning);
    if offered(shown, text) {
        let i = choose|i: int| 0 <= i < shown.len() && (#[trigger] shown[i]).text == text;
        assert(all[i].text == text);
    }
    if offered(all, text) {
        let i = choose|i: int| 0 <= i < all.len() && (#[trigger] all[i]).text == text;
        assert(shown[i].text == text);
    }
}

proof fn lemma_model_texts(advice: AdviceView, text: Seq<char>)
    ensures
        advice.model.contains(text) <==> offered(sources::all_as_model(advice.model), text),
        (exists|k: int|
            0 <= k < advice.rewrites.len() && (#[trigger] advice.rewrites[k]).text == text)
            <==> offered(sources::all_as_rewrites(advice.rewrites), text),
{
    let model = sources::all_as_model(advice.model);
    let rewrites = sources::all_as_rewrites(advice.rewrites);
    if advice.model.contains(text) {
        let k = choose|k: int| 0 <= k < advice.model.len() && advice.model[k] == text;
        assert(model[k].text == text);
    }
    if offered(model, text) {
        let k = choose|k: int| 0 <= k < model.len() && (#[trigger] model[k]).text == text;
        assert(advice.model[k] == text);
    }
    if exists|k: int|
        0 <= k < advice.rewrites.len() && (#[trigger] advice.rewrites[k]).text == text {
        let k = choose|k: int|
            0 <= k < advice.rewrites.len() && (#[trigger] advice.rewrites[k]).text == text;
        assert(rewrites[k].text == text);
    }
    if offered(rewrites, text) {
        let k = choose|k: int| 0 <= k < rewrites.len() && (#[trigger] rewrites[k]).text == text;
        assert(advice.rewrites[k].text == text);
    }
}

proof fn lemma_parted_texts(
    user: Option<Seq<EntryView>>,
    system: Option<Seq<EntryView>>,
    reading: Seq<char>,
    text: Seq<char>,
)
    ensures
        ({
            let hits = sources::dictionary_candidates(user, system, reading, usize::MAX as int);
            offered(hits, text) <==> offered(
                sources::only_from(hits, CandidateSource::UserDictionary),
                text,
            ) || offered(sources::only_from(hits, CandidateSource::Dictionary), text)
        }),
{
    let hits = sources::dictionary_candidates(user, system, reading, usize::MAX as int);
    let (first, second, a, b) = lemma_two_dictionaries(user, system, reading);
    lemma_joined_texts(first, second, text);
}

proof fn lemma_joined_texts(a: Seq<AnnotatedView>, b: Seq<AnnotatedView>, text: Seq<char>)
    ensures
        offered(a + b, text) <==> offered(a, text) || offered(b, text),
{
    let all = a + b;
    if offered(all, text) {
        let i = choose|i: int| 0 <= i < all.len() && (#[trigger] all[i]).text == text;
        if i < a.len() {
            assert(a[i] == all[i]);
        } else {
            assert(b[i - a.len()] == all[i]);
        }
    }
    if offered(a, text) {
        let i = choose|i: int| 0 <= i < a.len() && (#[trigger] a[i]).text == text;
        assert(all[i] == a[i]);
    }
    if offered(b, text) {
        let i = choose|i: int| 0 <= i < b.len() && (#[trigger] b[i]).text == text;
        assert(all[a.len() + i] == b[i]);
    }
}

proof fn lemma_same_texts(recalled: Seq<CandidateView>, list: Seq<AnnotatedView>, text: Seq<char>)
    requires
        list.len() == recalled.len(),
        forall|k: int| 0 <= k < list.len() ==> (#[trigger] list[k]).text == recalled[k].text,
    ensures
        recalls(recalled, text) <==> offered(list, text),
{
    if recalls(recalled, text) {
        let k = choose|k: int| 0 <= k < recalled.len() && (#[trigger] recalled[k]).text == text;
        assert(list[k].text == text);
    }
    if offered(list, text) {
        let k = choose|k: int| 0 <= k < list.len() && (#[trigger] list[k]).text == text;
        assert(recalled[k].text == text);
    }
}

/// Skipping learning adds no text and takes away only what the history alone
/// recalls: nothing that a dictionary, the model, a kana form or a variant
/// gives.
pub proof fn law_skipping_learning_loses_only_the_history(
    setting: Setting,
    reading: Seq<char>,
    advice: AdviceView,
    text: Seq<char>,
)
    requires
        countable(setting.user),
        countable(setting.system),
    ensures
        ({
            let with = offered(
                sources::conversion_candidates(setting, reading, advice, false),
                text,
            );
            let without = offered(
                sources::conversion_candidates(setting, reading, advice, true),
                text,
            );
            &&& without ==> with
            &&& with && !without ==> {
                &&& setting.learning
                &&& !lists(setting.user, reading, text) && !lists(setting.system, reading, text)
                &&& !advice.model.contains(text)
                &&& setting.emoji || text != reading && text != kana::in_katakana(reading)
                &&& advice.learned_exact.contains(text) || exists|k: int|
                    0 <= k < advice.learned_prefix.len() && (
                    #[trigger] advice.learned_prefix[k]).surface == text
            }
        }),
{
    law_all_sources_are_offered_and_no_more(setting, reading, advice, false, text);
    law_all_sources_are_offered_and_no_more(setting, reading, advice, true, text);
    law_what_the_history_recalls(
        setting.learning,
        reading,
        advice.learned_exact,
        advice.learned_prefix,
    );
    let recalled = sources::learned_candidates(
        setting.learning,
        reading,
        advice.learned_exact,
        advice.learned_prefix,
    );
    if recalls(recalled, text) {
        let k = choose|k: int| 0 <= k < recalled.len() && (#[trigger] recalled[k]).text == text;
        assert(recalled_from(
            reading,
            advice.learned_exact,
            advice.learned_prefix,
            recalled[k],
        ));
    }
}

/// A learned entry is short enough to be offered as a prediction.
pub open spec fn short_enough(reading: Seq<char>, entry: LearnedView) -> bool {
    entry.reading != reading && entry.reading.len() <= 12 && entry.surface.len() <= 24
}

/// A recalled candidate is a learned surface of the reading itself, or a
/// learned entry of another reading that is short enough, under its own
/// reading.
pub open spec fn recalled_from(
    reading: Seq<char>,
    exact: Seq<Seq<char>>,
    prefix: Seq<LearnedView>,
    c: CandidateView,
) -> bool {
    &&& c.source == Some(CandidateSource::Learning)
    &&& c.description is None
    &&& (exact.contains(c.text) && c.reading == Some(reading)) || exists|k: int|
        0 <= k < prefix.len() && short_enough(reading, #[trigger] prefix[k]) && prefix[k].surface
            == c.text && c.reading == Some(prefix[k].reading)
}

/// Everything that the history could recall is recalled.
pub open spec fn recalls_all(
    reading: Seq<char>,
    exact: Seq<Seq<char>>,
    prefix: Seq<LearnedView>,
    list: Seq<CandidateView>,
) -> bool {
    &&& forall|k: int| 0 <= k < exact.len() ==> recalls(list, #[trigger] exact[k])
    &&& forall|k: int|
        0 <= k < prefix.len() && short_enough(reading, #[trigger] prefix[k]) ==> recalls(
            list,
            prefix[k].surface,
        )
}

/// What the history recalls of a reading: at most three conversions, no text
/// twice, the exact ones first and the first of them in front; all there are,
/// where these are fewer than three; nothing where learning is off.
pub proof fn law_what_the_history_recalls(
    enabled: bool,
    reading: Seq<char>,
    exact: Seq<Seq<char>>,
    prefix: Seq<LearnedView>,
)
    ensures
        ({
            let list = sources::learned_candidates(enabled, reading, exact, prefix);
            &&& !enabled ==> list.len() == 0
            &&& list.len() <= 3
            &&& forall|i: int, j: int|
                0 <= i < j < list.len() ==> (#[trigger] list[i]).text != (#[trigger] list[j]).text
            &&& forall|i: int|
                0 <= i < list.len() ==> recalled_from(reading, exact, prefix, #[trigger] list[i])
            &&& enabled && list.len() < 3 ==> recalls_all(reading, exact, prefix, list)
            &&& enabled && exact.len() > 0 ==> list.len() > 0 && list[0].text == exact[0]
                && list[0].reading == Some(reading)
            &&& forall|i: int, j: int|
                0 <= i < j < list.len() && (#[trigger] list[j]).reading == Some(reading) ==> (
                #[trigger] list[i]).reading == Some(reading)
        }),
{
    if enabled {
        let first = sources::with_exact(Seq::empty(), reading, exact);
        lemma_exact(reading, exact);
        lemma_predictions(reading, exact, first, prefix);
    }
}

/// What a list of recalled candidates satisfies while it grows.
pub open spec fn recalling(
    reading: Seq<char>,
    exact: Seq<Seq<char>>,
    prefix: Seq<LearnedView>,
    list: Seq<CandidateView>,
) -> bool {
    &&& list.len() <= 3
    &&& forall|i: int, j: int|
        0 <= i < j < list.len() ==> (#[trigger] list[i]).text != (#[trigger] list[j]).text
    &&& forall|i: int|
        0 <= i < list.len() ==> recalled_from(reading, exact, prefix, #[trigger] list[i])
    &&& list.len() < 3 ==> recalls_all(reading, exact, prefix, list)
    &&& exact.len() > 0 ==> list.len() > 0 && list[0].text == exact[0] && list[0].reading == Some(
        reading,
    )
    &&& forall|i: int, j: int|
        0 <= i < j < list.len() && (#[trigger] list[j]).reading == Some(reading) ==> (
        #[trigger] list[i]).reading == Some(reading)
}

proof fn lemma_recalls_later(list: Seq<CandidateView>, c: CandidateView, text: Seq<char>)
    requires
        recalls(list, text),
    ensures
        recalls(list.push(c), text),
{
    let k = choose|k: int| 0 <= k < list.len() && (#[trigger] list[k]).text == text;
    assert(list.push(c)[k].text == text);
}

proof fn lemma_exact(reading: Seq<char>, exact: Seq<Seq<char>>)
    ensures
        recalling(
            reading,
            exact,
            Seq::empty(),
            sources::with_exact(Seq::empty(), reading, exact),
        ),
        forall|i: int|
            0 <= i < sources::with_exact(Seq::empty(), reading, exact).len() ==> (
            #[trigger] sources::with_exact(Seq::empty(), reading, exact)[i]).reading == Some(
                reading,
            ),
    decreases exact.len(),
{
    if exact.len() > 0 {
        let before = exact.drop_last();
        lemma_exact(reading, before);
        let list = sources::with_exact(Seq::empty(), reading, before);
        let text = exact.last();
        let next = sources::with_exact(Seq::empty(), reading, exact);
        assert(exact[exact.len() - 1] == text);
        assert forall|i: int| 0 <= i < list.len() implies recalled_from(
            reading,
            exact,
            Seq::empty(),
            #[trigger] list[i],
        ) by {
            assert(before.contains(list[i].text));
            let k = choose|k: int| 0 <= k < before.len() && before[k] == list[i].text;
            assert(exact[k] == list[i].text);
        }
        if before.len() > 0 {
            assert(before[0] == exact[0]);
        }
        if list.len() < 3 {
            assert forall|k: int| 0 <= k < exact.len() implies recalls(
                next,
                #[trigger] exact[k],
            ) by {
                if k < before.len() {
                    assert(recalls(list, before[k]));
                    if next != list {
                        lemma_recalls_later(list, sources::learned(text, reading), exact[k]);
                    }
                } else if sources::shows_text(list, text) {
                } else {
                    assert(next[list.len() as int].text == text);
                }
            }
        }
        if next != list {
            assert forall|i: int, j: int| 0 <= i < j < next.len() implies (
            #[trigger] next[i]).text != (#[trigger] next[j]).text by {
                if j == list.len() {
                    assert(list[i].text != text);
                } else {
                    assert(list[i].text != list[j].text);
                }
            }
            assert forall|i: int| 0 <= i < next.len() implies recalled_from(
                reading,
                exact,
                Seq::empty(),
                #[trigger] next[i],
            ) by {
                if i < list.len() {
                    assert(next[i] == list[i]);
                } else {
                    assert(exact.contains(text));
                }
            }
        }
    }
}

proof fn lemma_predictions(
    reading: Seq<char>,
    exact: Seq<Seq<char>>,
    first: Seq<CandidateView>,
    prefix: Seq<LearnedView>,
)
    requires
        recalling(reading, exact, Seq::empty(), first),
    ensures
        recalling(reading, exact, prefix, sources::with_predictions(first, reading, prefix)),
    decreases prefix.len(),
{
    if prefix.len() == 0 {
        assert(prefix =~= Seq::empty());
    } else {
        let before = prefix.drop_last();
        lemma_predictions(reading, exact, first, before);
        let list = sources::with_predictions(first, reading, before);
        let next = sources::with_predictions(first, reading, prefix);
        let entry = prefix.last();
        assert(prefix[prefix.len() - 1] == entry);
        assert forall|i: int| 0 <= i < list.len() implies recalled_from(
            reading,
            exact,
            prefix,
            #[trigger] list[i],
        ) by {
            let c = list[i];
            assert(recalled_from(reading, exact, before, c));
            if !(exact.contains(c.text) && c.reading == Some(reading)) {
                let k = choose|k: int|
                    0 <= k < before.len() && short_enough(reading, #[trigger] before[k])
                        && before[k].surface == c.text && c.reading == Some(before[k].reading);
                assert(prefix[k] == before[k]);
            }
        }
        if list.len() < 3 {
            assert forall|k: int| 0 <= k < exact.len() implies recalls(
                next,
                #[trigger] exact[k],
            ) by {
                assert(recalls(list, exact[k]));
                if next != list {
                    lemma_recalls_later(
                        list,
                        sources::learned(entry.surface, entry.reading),
                        exact[k],
                    );
                }
            }
            assert forall|k: int|
                0 <= k < prefix.len() && short_enough(reading, #[trigger] prefix[k]) implies recalls(
                next,
                prefix[k].surface,
            ) by {
                if k < before.len() {
                    assert(short_enough(reading, before[k]));
                    assert(recalls(list, before[k].surface));
                    if next != list {
                        lemma_recalls_later(
                            list,
                            sources::learned(entry.surface, entry.reading),
                            prefix[k].surface,
                        );
                    }
                } else if sources::shows_text(list, entry.surface) {
                } else {
                    assert(next[list.len() as int].text == entry.surface);
                }
            }
        }
        if next != list {
            assert forall|i: int, j: int| 0 <= i < j < next.len() implies (
            #[trigger] next[i]).text != (#[trigger] next[j]).text by {
                if j == list.len() {
                    assert(list[i].text != entry.surface);
                } else {
                    assert(list[i].text != list[j].text);
                }
            }
            assert forall|i: int| 0 <= i < next.len() implies recalled_from(
                reading,
                exact,
                prefix,
                #[trigger] next[i],
            ) by {
                if i < list.len() {
                    assert(next[i] == list[i]);
                } else {
                    assert(short_enough(reading, prefix[prefix.len() - 1]));
                }
            }
            assert forall|i: int, j: int|
                0 <= i < j < next.len() && (#[trigger] next[j]).reading == Some(reading) implies (
            #[trigger] next[i]).reading == Some(reading) by {
                if j < list.len() {
                    assert(list[j].reading == Some(reading));
                    assert(next[i] == list[i]);
                }
            }
        }
    }
}

/// The lists that a list of candidates grows through, and what is added at
/// each.
pub struct Growth {
    pub known: Seq<AnnotatedView>,
    pub registered: Seq<AnnotatedView>,
    pub modelled: Seq<AnnotatedView>,
    pub listed: Seq<AnnotatedView>,
    pub formed: Seq<AnnotatedView>,
    pub all: Seq<AnnotatedView>,
    pub words: Seq<AnnotatedView>,
    pub learned: Seq<AnnotatedView>,
    pub model: Seq<AnnotatedView>,
    pub surfaces: Seq<AnnotatedView>,
    pub forms: Seq<AnnotatedView>,
    pub rewrites: Seq<AnnotatedView>,
}

/// How the list of a reading grows.
pub open spec fn growth(
    setting: Setting,
    reading: Seq<char>,
    advice: AdviceView,
    skip_learning: bool,
) -> Growth {
    let hits = sources::dictionary_candidates(
        setting.user,
        setting.system,
        reading,
        usize::MAX as int,
    );
    let words = sources::only_from(hits, CandidateSource::UserDictionary);
    let learned = if skip_learning {
        Seq::empty()
    } else {
        sources::all_as_learning(
            sources::learned_candidates(
                setting.learning,
                reading,
                advice.learned_exact,
                advice.learned_prefix,
            ),
            reading,
        )
    };
    let model = sources::all_as_model(advice.model);
    let surfaces = sources::only_from(hits, CandidateSource::Dictionary);
    let forms = if setting.emoji {
        Seq::empty()
    } else {
        seq![
            candidate::plain(reading, CandidateSource::Fallback),
            candidate::plain(kana::in_katakana(reading), CandidateSource::Fallback),
        ]
    };
    let rewrites = sources::all_as_rewrites(advice.rewrites);
    let registered = candidate::added_all(Seq::empty(), words);
    let known = candidate::added_all(registered, learned);
    let modelled = candidate::added_all(known, model);
    let listed = candidate::added_all(modelled, surfaces);
    let formed = candidate::added_all(listed, forms);
    let all = candidate::added_all(formed, rewrites);
    Growth {
        known,
        registered,
        modelled,
        listed,
        formed,
        all,
        words,
        learned,
        model,
        surfaces,
        forms,
        rewrites,
    }
}

proof fn lemma_growth(
    setting: Setting,
    reading: Seq<char>,
    advice: AdviceView,
    skip_learning: bool,
)
    ensures
        growth(setting, reading, advice, skip_learning).all == sources::all_candidates(
            setting,
            reading,
            advice,
            skip_learning,
        ),
{
    let g = growth(setting, reading, advice, skip_learning);
    assert(g.known == sources::known_conversions(setting, reading, advice, skip_learning));
    if !setting.emoji {
        let typed = candidate::plain(reading, CandidateSource::Fallback);
        let katakana = candidate::plain(kana::in_katakana(reading), CandidateSource::Fallback);
        assert(g.forms.drop_last() =~= seq![typed]);
        assert(g.forms.last() == katakana);
        assert(seq![typed].drop_last() =~= Seq::empty());
        assert(candidate::added_all(g.listed, Seq::empty()) == g.listed);
        assert(candidate::added_all(g.listed, seq![typed]) == candidate::added(g.listed, typed));
    }
}

/// Every part of a growing list has one source.
proof fn lemma_parts(
    setting: Setting,
    reading: Seq<char>,
    advice: AdviceView,
    skip_learning: bool,
)
    ensures
        ({
            let g = growth(setting, reading, advice, skip_learning);
            &&& part_of(g.words, CandidateSource::UserDictionary)
            &&& part_of(g.learned, CandidateSource::Learning)
            &&& part_of(g.model, CandidateSource::Model)
            &&& part_of(g.surfaces, CandidateSource::Dictionary)
            &&& part_of(g.forms, CandidateSource::Fallback)
            &&& part_of(g.rewrites, CandidateSource::Rewriter)
        }),
{
    let hits = sources::dictionary_candidates(
        setting.user,
        setting.system,
        reading,
        usize::MAX as int,
    );
    broadcast use vstd::seq_lib::group_filter_ensures;

    assert(part_of(
        sources::only_from(hits, CandidateSource::UserDictionary),
        CandidateSource::UserDictionary,
    ));
    assert(part_of(
        sources::only_from(hits, CandidateSource::Dictionary),
        CandidateSource::Dictionary,
    ));
}

/// All candidates of a list come from one source.
pub open spec fn part_of(list: Seq<AnnotatedView>, source: CandidateSource) -> bool {
    forall|i: int| 0 <= i < list.len() ==> (#[trigger] list[i]).source == source
}

/// The part of a growing list that a source gives, and the list before it.
pub open spec fn part(g: Growth, source: CandidateSource) -> (Seq<AnnotatedView>, Seq<AnnotatedView>) {
    match source {
        CandidateSource::UserDictionary => (Seq::empty(), g.words),
        CandidateSource::Learning => (g.registered, g.learned),
        CandidateSource::Model => (g.known, g.model),
        CandidateSource::Dictionary => (g.modelled, g.surfaces),
        CandidateSource::Fallback => (g.listed, g.forms),
        CandidateSource::Rewriter => (g.formed, g.rewrites),
    }
}

proof fn lemma_prefixes(a: Seq<AnnotatedView>, b: Seq<AnnotatedView>, c: Seq<AnnotatedView>)
    requires
        a.is_prefix_of(b),
        b.is_prefix_of(c),
    ensures
        a.is_prefix_of(c),
{
    assert(a =~= c.take(a.len() as int));
}

proof fn lemma_add_other(
    list: Seq<AnnotatedView>,
    more: Seq<AnnotatedView>,
    own: CandidateSource,
    from: int,
    source: CandidateSource,
)
    requires
        candidate::distinct_texts(list),
        part_of(more, own),
        own != source,
        0 <= from <= list.len(),
        sources::none_from(list, from, source),
    ensures
        candidate::distinct_texts(candidate::added_all(list, more)),
        list.is_prefix_of(candidate::added_all(list, more)),
        list.len() <= candidate::added_all(list, more).len(),
        sources::none_from(candidate::added_all(list, more), from, source),
{
    sources::lemma_tail_sources(list, more, from, source);
}

/// The candidates of a source all stand in its part of the list.
proof fn lemma_place(
    setting: Setting,
    reading: Seq<char>,
    advice: AdviceView,
    skip_learning: bool,
    source: CandidateSource,
)
    ensures
        ({
            let g = growth(setting, reading, advice, skip_learning);
            let (before, more) = part(g, source);
            let after = candidate::added_all(before, more);
            &&& sources::none_from(before, 0, source)
            &&& after.is_prefix_of(g.all)
            &&& sources::none_from(g.all, after.len() as int, source)
        }),
{
    let g = growth(setting, reading, advice, skip_learning);
    lemma_parts(setting, reading, advice, skip_learning);
    let e = Seq::<AnnotatedView>::empty();
    let s0 = CandidateSource::UserDictionary;
    let s1 = CandidateSource::Learning;
    let s2 = CandidateSource::Model;
    let s3 = CandidateSource::Dictionary;
    let s4 = CandidateSource::Fallback;
    let s5 = CandidateSource::Rewriter;
    candidate::law_adding_keeps_texts_distinct(e, g.words);
    candidate::law_adding_keeps_texts_distinct(g.registered, g.learned);
    candidate::law_adding_keeps_texts_distinct(g.known, g.model);
    candidate::law_adding_keeps_texts_distinct(g.modelled, g.surfaces);
    candidate::law_adding_keeps_texts_distinct(g.listed, g.forms);
    candidate::law_adding_keeps_texts_distinct(g.formed, g.rewrites);
    lemma_prefixes(g.registered, g.known, g.modelled);
    lemma_prefixes(g.registered, g.modelled, g.listed);
    lemma_prefixes(g.registered, g.listed, g.formed);
    lemma_prefixes(g.registered, g.formed, g.all);
    lemma_prefixes(g.known, g.modelled, g.listed);
    lemma_prefixes(g.known, g.listed, g.formed);
    lemma_prefixes(g.known, g.formed, g.all);
    lemma_prefixes(g.modelled, g.listed, g.formed);
    lemma_prefixes(g.modelled, g.formed, g.all);
    lemma_prefixes(g.listed, g.formed, g.all);
    match source {
        CandidateSource::UserDictionary => {
            let n = g.registered.len() as int;
            lemma_add_other(g.registered, g.learned, s1, n, source);
            lemma_add_other(g.known, g.model, s2, n, source);
            lemma_add_other(g.modelled, g.surfaces, s3, n, source);
            lemma_add_other(g.listed, g.forms, s4, n, source);
            lemma_add_other(g.formed, g.rewrites, s5, n, source);
        },
        CandidateSource::Learning => {
            let n = g.known.len() as int;
            lemma_add_other(e, g.words, s0, 0, source);
            lemma_add_other(g.known, g.model, s2, n, source);
            lemma_add_other(g.modelled, g.surfaces, s3, n, source);
            lemma_add_other(g.listed, g.forms, s4, n, source);
            lemma_add_other(g.formed, g.rewrites, s5, n, source);
        },
        CandidateSource::Model => {
            let n = g.modelled.len() as int;
            lemma_add_other(e, g.words, s0, 0, source);
            lemma_add_other(g.registered, g.learned, s1, 0, source);
            lemma_add_other(g.modelled, g.surfaces, s3, n, source);
            lemma_add_other(g.listed, g.forms, s4, n, source);
            lemma_add_other(g.formed, g.rewrites, s5, n, source);
        },
        CandidateSource::Dictionary => {
            let n = g.listed.len() as int;
            lemma_add_other(e, g.words, s0, 0, source);
            lemma_add_other(g.registered, g.learned, s1, 0, source);
            lemma_add_other(g.known, g.model, s2, 0, source);
            lemma_add_other(g.listed, g.forms, s4, n, source);
            lemma_add_other(g.formed, g.rewrites, s5, n, source);
        },
        CandidateSource::Fallback => {
            let n = g.formed.len() as int;
            lemma_add_other(e, g.words, s0, 0, source);
            lemma_add_other(g.registered, g.learned, s1, 0, source);
            lemma_add_other(g.known, g.model, s2, 0, source);
            lemma_add_other(g.modelled, g.surfaces, s3, 0, source);
            lemma_add_other(g.formed, g.rewrites, s5, n, source);
        },
        CandidateSource::Rewriter => {
            lemma_add_other(e, g.words, s0, 0, source);
            lemma_add_other(g.registered, g.learned, s1, 0, source);
            lemma_add_other(g.known, g.model, s2, 0, source);
            lemma_add_other(g.modelled, g.surfaces, s3, 0, source);
            lemma_add_other(g.listed, g.forms, s4, 0, source);
        },
    }
}

/// Two candidates of one source stand in the order in which the source gives
/// them.
proof fn lemma_same_source(
    setting: Setting,
    reading: Seq<char>,
    advice: AdviceView,
    skip_learning: bool,
    i: int,
    j: int,
) -> (r: (int, int))
    requires
        ({
            let all = sources::all_candidates(setting, reading, advice, skip_learning);
            0 <= i <= j < all.len() && all[i].source == all[j].source
        }),
    ensures
        ({
            let all = sources::all_candidates(setting, reading, advice, skip_learning);
            let more = part(growth(setting, reading, advice, skip_learning), all[i].source).1;
            let (a, b) = r;
            &&& 0 <= a <= b < more.len()
            &&& i < j ==> a < b
            &&& more[a] == all[i]
            &&& more[b] == all[j]
        }),
{
    let all = sources::all_candidates(setting, reading, advice, skip_learning);
    let source = all[i].source;
    let g = growth(setting, reading, advice, skip_learning);
    lemma_growth(setting, reading, advice, skip_learning);
    lemma_place(setting, reading, advice, skip_learning, source);
    let (before, more) = part(g, source);
    let after = candidate::added_all(before, more);
    let from = lemma_drawn(before, more);
    assert(j < after.len()) by {
        if j >= after.len() {
            assert(g.all[j].source != source);
        }
    }
    assert(all[i] == after[i] && all[j] == after[j]);
    assert(i >= before.len()) by {
        if i < before.len() {
            assert(after[i] == before[i]);
            assert(before[i].source != source);
        }
    }
    let k = i - before.len();
    let l = j - before.len();
    assert(0 <= from[k] < more.len());
    assert(0 <= from[l] < more.len());
    if i < j {
        assert(from[k] < from[l]);
    }
    (from[k], from[l])
}

/// What a candidate is, by the source that it names.
pub open spec fn true_to_source(
    setting: Setting,
    reading: Seq<char>,
    advice: AdviceView,
    skip_learning: bool,
    c: AnnotatedView,
) -> bool {
    match c.source {
        CandidateSource::UserDictionary => lists(setting.user, reading, c.text) && c.reading is None,
        CandidateSource::Learning => !skip_learning && setting.learning && exists|r: CandidateView|
            {
                &&& #[trigger] recalled_from(
                    reading,
                    advice.learned_exact,
                    advice.learned_prefix,
                    r,
                )
                &&& r.text == c.text
                &&& c.reading == if r.reading == Some(reading) {
                    None
                } else {
                    r.reading
                }
            },
        CandidateSource::Model => advice.model.contains(c.text) && c.reading is None,
        CandidateSource::Dictionary => lists(setting.system, reading, c.text) && c.reading is None,
        CandidateSource::Fallback => !setting.emoji && (c.text == reading || c.text
            == kana::in_katakana(reading)) && c.reading is None,
        CandidateSource::Rewriter => c.reading is None && exists|k: int|
            0 <= k < advice.rewrites.len() && (#[trigger] advice.rewrites[k]).text == c.text && (
            advice.rewrites[k].description is Some ==> c.description
                == advice.rewrites[k].description),
    }
}

/// Every candidate is true to the source that it names: a registered word is
/// registered for the reading, a learned one was learned, and so on.
pub proof fn law_candidates_are_true_to_their_source(
    setting: Setting,
    reading: Seq<char>,
    advice: AdviceView,
    skip_learning: bool,
    i: int,
)
    requires
        0 <= i < sources::conversion_candidates(setting, reading, advice, skip_learning).len(),
    ensures
        true_to_source(
            setting,
            reading,
            advice,
            skip_learning,
            sources::conversion_candidates(setting, reading, advice, skip_learning)[i],
        ),
{
    let all = sources::all_candidates(setting, reading, advice, skip_learning);
    let c = all[i];
    let shown = sources::conversion_candidates(setting, reading, advice, skip_learning)[i];
    let g = growth(setting, reading, advice, skip_learning);
    let (a, b) = lemma_same_source(setting, reading, advice, skip_learning, i, i);
    match c.source {
        CandidateSource::UserDictionary => {
            lemma_word_is_listed(setting, reading, g.words, g.surfaces);
        },
        CandidateSource::Dictionary => {
            lemma_word_is_listed(setting, reading, g.words, g.surfaces);
        },
        CandidateSource::Learning => {
            let recalled = sources::learned_candidates(
                setting.learning,
                reading,
                advice.learned_exact,
                advice.learned_prefix,
            );
            law_what_the_history_recalls(
                setting.learning,
                reading,
                advice.learned_exact,
                advice.learned_prefix,
            );
            assert(g.learned[a] == sources::as_learning(recalled[a], reading));
            assert(recalled_from(
                reading,
                advice.learned_exact,
                advice.learned_prefix,
                recalled[a],
            ));
        },
        CandidateSource::Model => {
            assert(advice.model[a] == c.text);
        },
        CandidateSource::Fallback => {
        },
        CandidateSource::Rewriter => {
            assert(advice.rewrites[a].text == c.text);
        },
    }
}

proof fn lemma_word_is_listed(
    setting: Setting,
    reading: Seq<char>,
    words: Seq<AnnotatedView>,
    surfaces: Seq<AnnotatedView>,
)
    requires
        words == sources::only_from(
            sources::dictionary_candidates(
                setting.user,
                setting.system,
                reading,
                usize::MAX as int,
            ),
            CandidateSource::UserDictionary,
        ),
        surfaces == sources::only_from(
            sources::dictionary_candidates(
                setting.user,
                setting.system,
                reading,
                usize::MAX as int,
            ),
            CandidateSource::Dictionary,
        ),
    ensures
        forall|a: int|
            0 <= a < words.len() ==> (#[trigger] words[a]).reading is None
                && words[a].description is None && lists(setting.user, reading, words[a].text),
        forall|a: int|
            0 <= a < surfaces.len() ==> (#[trigger] surfaces[a]).reading is None
                && surfaces[a].description is None && lists(
                setting.system,
                reading,
                surfaces[a].text,
            ),
{
    let (x, y) = lemma_dictionary_parts(setting.user, setting.system, reading, words, surfaces);
    let e = Seq::<AnnotatedView>::empty();
    assert forall|a: int| 0 <= a < words.len() implies (#[trigger] words[a]).reading is None
        && words[a].description is None && lists(setting.user, reading, words[a].text) by {
        let known = sources::known_surfaces(setting.user, reading);
        lemma_hit(e, known, CandidateSource::UserDictionary, words, x, a);
        let word = known[x[a]];
        assert(known.contains(word));
        law_the_first_entry_counts(setting.user, reading, word);
        assert(has_word(setting.user, reading, word) && word.surface == words[a].text);
    }
    assert forall|a: int| 0 <= a < surfaces.len() implies (#[trigger] surfaces[a]).reading is None
        && surfaces[a].description is None && lists(
        setting.system,
        reading,
        surfaces[a].text,
    ) by {
        let known = sources::known_surfaces(setting.system, reading);
        let sorted = sources::by_score(known);
        lemma_hit(e, sorted, CandidateSource::Dictionary, surfaces, y, a);
        let word = sorted[y[a]];
        assert(sorted.contains(word));
        lemma_scored(known, word);
        law_the_first_entry_counts(setting.system, reading, word);
        assert(has_word(setting.system, reading, word) && word.surface == surfaces[a].text);
    }
}

/// Among the candidates of one source the order of the source is kept: the
/// model's best conversion first, the surfaces of the system dictionary by
/// their scores, registered words and variants as they are given.
pub proof fn law_sources_keep_their_order(
    setting: Setting,
    reading: Seq<char>,
    advice: AdviceView,
    skip_learning: bool,
    i: int,
    j: int,
)
    requires
        ({
            let shown = sources::conversion_candidates(setting, reading, advice, skip_learning);
            0 <= i < j < shown.len() && shown[i].source == shown[j].source
        }),
    ensures
        ({
            let shown = sources::conversion_candidates(setting, reading, advice, skip_learning);
            match shown[i].source {
                CandidateSource::Model => exists|a: int, b: int|
                    0 <= a < b < advice.model.len() && #[trigger] advice.model[a] == shown[i].text
                        && #[trigger] advice.model[b] == shown[j].text,
                CandidateSource::Rewriter => exists|a: int, b: int|
                    0 <= a < b < advice.rewrites.len() && (#[trigger] advice.rewrites[a]).text
                        == shown[i].text && (#[trigger] advice.rewrites[b]).text == shown[j].text,
                CandidateSource::Dictionary => exists|v: SurfaceView, w: SurfaceView|
                    #[trigger] has_word(setting.system, reading, v) && #[trigger] has_word(
                        setting.system,
                        reading,
                        w,
                    ) && v.surface == shown[i].text && w.surface == shown[j].text && v.score
                        <= w.score,
                CandidateSource::UserDictionary => exists|a: int, b: int|
                    0 <= a < b < sources::known_surfaces(setting.user, reading).len() && (
                    #[trigger] sources::known_surfaces(setting.user, reading)[a]).surface
                        == shown[i].text && (#[trigger] sources::known_surfaces(
                        setting.user,
                        reading,
                    )[b]).surface == shown[j].text,
                CandidateSource::Fallback => shown[i].text == reading,
                CandidateSource::Learning => shown[j].reading is None ==> shown[i].reading is None,
            }
        }),
{
    let all = sources::all_candidates(setting, reading, advice, skip_learning);
    let shown = sources::conversion_candidates(setting, reading, advice, skip_learning);
    assert(all[i].source == shown[i].source && all[j].source == shown[j].source);
    let g = growth(setting, reading, advice, skip_learning);
    let (a, b) = lemma_same_source(setting, reading, advice, skip_learning, i, j);
    match shown[i].source {
        CandidateSource::Model => {
            assert(advice.model[a] == shown[i].text && advice.model[b] == shown[j].text);
        },
        CandidateSource::Rewriter => {
            assert(advice.rewrites[a].text == shown[i].text);
            assert(advice.rewrites[b].text == shown[j].text);
        },
        CandidateSource::Dictionary => {
            lemma_scores_rise(setting, reading, g.words, g.surfaces, a, b);
        },
        CandidateSource::UserDictionary => {
            lemma_words_in_order(setting, reading, g.words, g.surfaces, a, b);
        },
        CandidateSource::Learning => {
            law_what_the_history_recalls(
                setting.learning,
                reading,
                advice.learned_exact,
                advice.learned_prefix,
            );
            let recalled = sources::learned_candidates(
                setting.learning,
                reading,
                advice.learned_exact,
                advice.learned_prefix,
            );
            assert(g.learned[a] == sources::as_learning(recalled[a], reading));
            assert(g.learned[b] == sources::as_learning(recalled[b], reading));
            assert(recalled_from(
                reading,
                advice.learned_exact,
                advice.learned_prefix,
                recalled[b],
            ));
            if shown[j].reading is None {
                assert(recalled[b].reading == Some(reading));
                assert(recalled[a].reading == Some(reading));
            }
        },
        CandidateSource::Fallback => {
        },
    }
}

proof fn lemma_scores_rise(
    setting: Setting,
    reading: Seq<char>,
    words: Seq<AnnotatedView>,
    surfaces: Seq<AnnotatedView>,
    a: int,
    b: int,
)
    requires
        words == sources::only_from(
            sources::dictionary_candidates(
                setting.user,
                setting.system,
                reading,
                usize::MAX as int,
            ),
            CandidateSource::UserDictionary,
        ),
        surfaces == sources::only_from(
            sources::dictionary_candidates(
                setting.user,
                setting.system,
                reading,
                usize::MAX as int,
            ),
            CandidateSource::Dictionary,
        ),
        0 <= a < b < surfaces.len(),
    ensures
        exists|v: SurfaceView, w: SurfaceView|
            #[trigger] has_word(setting.system, reading, v) && #[trigger] has_word(
                setting.system,
                reading,
                w,
            ) && v.surface == surfaces[a].text && w.surface == surfaces[b].text && v.score
                <= w.score,
{
    let (x, y) = lemma_dictionary_parts(setting.user, setting.system, reading, words, surfaces);
    let e = Seq::<AnnotatedView>::empty();
    let known = sources::known_surfaces(setting.system, reading);
    let sorted = sources::by_score(known);
    lemma_hit(e, sorted, CandidateSource::Dictionary, surfaces, y, a);
    lemma_hit(e, sorted, CandidateSource::Dictionary, surfaces, y, b);
    assert(y[a] < y[b]) by {
        reveal(hit_from);
    }
    let v = sorted[y[a]];
    let w = sorted[y[b]];
    assert(v.score <= w.score) by {
        sources::law_scores_are_ascending(known);
    }
    assert(sorted.contains(v) && sorted.contains(w));
    lemma_scored(known, v);
    lemma_scored(known, w);
    law_the_first_entry_counts(setting.system, reading, v);
    law_the_first_entry_counts(setting.system, reading, w);
    assert(has_word(setting.system, reading, v) && has_word(setting.system, reading, w));
}

proof fn lemma_words_in_order(
    setting: Setting,
    reading: Seq<char>,
    words: Seq<AnnotatedView>,
    surfaces: Seq<AnnotatedView>,
    a: int,
    b: int,
)
    requires
        words == sources::only_from(
            sources::dictionary_candidates(
                setting.user,
                setting.system,
                reading,
                usize::MAX as int,
            ),
            CandidateSource::UserDictionary,
        ),
        surfaces == sources::only_from(
            sources::dictionary_candidates(
                setting.user,
                setting.system,
                reading,
                usize::MAX as int,
            ),
            CandidateSource::Dictionary,
        ),
        0 <= a < b < words.len(),
    ensures
        exists|k: int, l: int|
            0 <= k < l < sources::known_surfaces(setting.user, reading).len() && (
            #[trigger] sources::known_surfaces(setting.user, reading)[k]).surface == words[a].text
                && (#[trigger] sources::known_surfaces(setting.user, reading)[l]).surface
                == words[b].text,
{
    let (x, y) = lemma_dictionary_parts(setting.user, setting.system, reading, words, surfaces);
    let e = Seq::<AnnotatedView>::empty();
    let known = sources::known_surfaces(setting.user, reading);
    lemma_hit(e, known, CandidateSource::UserDictionary, words, x, a);
    lemma_hit(e, known, CandidateSource::UserDictionary, words, x, b);
    assert(x[a] < x[b]) by {
        reveal(hit_from);
    }
    assert(known[x[a]].surface == words[a].text && known[x[b]].surface == words[b].text);
}

/// How candidates are described: a variant as it is given, a kana form that is
/// a known symbol by the name of the symbol, any other by the script that it
/// is written in throughout, where it is.
pub proof fn law_how_candidates_are_described(
    setting: Setting,
    reading: Seq<char>,
    advice: AdviceView,
    skip_learning: bool,
    i: int,
)
    requires
        0 <= i < sources::conversion_candidates(setting, reading, advice, skip_learning).len(),
    ensures
        ({
            let c = sources::conversion_candidates(setting, reading, advice, skip_learning)[i];
            let symbol = if c.text == reading {
                advice.reading_symbol
            } else {
                advice.katakana_symbol
            };
            if c.source == CandidateSource::Rewriter {
                exists|k: int|
                    0 <= k < advice.rewrites.len() && (#[trigger] advice.rewrites[k]).text
                        == c.text && c.description == if advice.rewrites[k].description is Some {
                        advice.rewrites[k].description
                    } else {
                        kana::width_label(c.text)
                    }
            } else if c.source == CandidateSource::Fallback && symbol is Some {
                c.description == symbol
            } else {
                c.description == kana::width_label(c.text)
            }
        }),
{
    let all = sources::all_candidates(setting, reading, advice, skip_learning);
    let c = all[i];
    let (a, b) = lemma_same_source(setting, reading, advice, skip_learning, i, i);
    let g = growth(setting, reading, advice, skip_learning);
    match c.source {
        CandidateSource::UserDictionary => {
            lemma_word_is_listed(setting, reading, g.words, g.surfaces);
        },
        CandidateSource::Dictionary => {
            lemma_word_is_listed(setting, reading, g.words, g.surfaces);
        },
        CandidateSource::Rewriter => {
            assert(advice.rewrites[a].text == c.text);
            assert(g.rewrites[a].description == advice.rewrites[a].description);
        },
        _ => {},
    }
}

/// Surfaces by score: all of them and no other, the lowest score first, and
/// those that score the same in the order in which they were.
pub open spec fn ordered_by_score(
    surfaces: Seq<SurfaceView>,
    places: Seq<int>,
    sorted: Seq<SurfaceView>,
) -> bool {
    &&& sorted.len() == surfaces.len()
    &&& places.len() == surfaces.len()
    &&& forall|i: int|
        0 <= i < sorted.len() ==> 0 <= #[trigger] places[i] < surfaces.len() && sorted[i]
            == surfaces[places[i]]
    &&& forall|i: int, j: int|
        0 <= i < j < sorted.len() ==> #[trigger] stand_in_order(places, sorted, i, j)
}

/// Of two surfaces the first scores lower, or they score the same and it was
/// first before.
pub open spec fn stand_in_order(
    places: Seq<int>,
    sorted: Seq<SurfaceView>,
    i: int,
    j: int,
) -> bool {
    ||| sorted[i].score < sorted[j].score
    ||| sorted[i].score == sorted[j].score && places[i] < places[j]
}

proof fn lemma_placed(
    places: Seq<int>,
    sorted: Seq<SurfaceView>,
    c: SurfaceView,
    own: int,
    all: Seq<SurfaceView>,
) -> (after: Seq<int>)
    requires
        sorted.len() == places.len(),
        0 <= own < all.len(),
        all[own] == c,
        forall|i: int|
            0 <= i < sorted.len() ==> 0 <= #[trigger] places[i] < own && sorted[i]
                == all[places[i]],
        forall|i: int, j: int|
            0 <= i < j < sorted.len() ==> #[trigger] stand_in_order(places, sorted, i, j),
    ensures
        after.len() == sorted.len() + 1,
        sources::placed(sorted, c).len() == sorted.len() + 1,
        forall|i: int|
            0 <= i < after.len() ==> 0 <= #[trigger] after[i] <= own && sources::placed(
                sorted,
                c,
            )[i] == all[after[i]],
        forall|i: int, j: int|
            0 <= i < j < after.len() ==> #[trigger] stand_in_order(
                after,
                sources::placed(sorted, c),
                i,
                j,
            ),
        forall|i: int| 0 <= i < after.len() ==> #[trigger] after[i] == own || places.contains(after[i]),
    decreases sorted.len(),
{
    let n = sorted.len() as int;
    if n == 0 || sorted.last().score <= c.score {
        let after = places.push(own);
        assert forall|i: int, j: int| 0 <= i < j < after.len() implies #[trigger] stand_in_order(
            after,
            sources::placed(sorted, c),
            i,
            j,
        ) by {
            if j == n {
                assert(places[i] < own);
                if i < n - 1 {
                    assert(stand_in_order(places, sorted, i, n - 1));
                }
            } else {
                assert(stand_in_order(places, sorted, i, j));
            }
        }
        assert forall|i: int| 0 <= i < after.len() implies #[trigger] after[i] == own
            || places.contains(after[i]) by {
            if i < n {
                assert(places[i] == after[i]);
            }
        }
        after
    } else {
        let front = sorted.drop_last();
        let before = places.drop_last();
        assert forall|i: int, j: int| 0 <= i < j < front.len() implies #[trigger] stand_in_order(
            before,
            front,
            i,
            j,
        ) by {
            assert(stand_in_order(places, sorted, i, j));
        }
        let inner = lemma_placed(before, front, c, own, all);
        let after = inner.push(places.last());
        let out = sources::placed(sorted, c);
        assert(out == sources::placed(front, c).push(sorted.last()));
        assert(places[n - 1] < own);
        assert forall|i: int, j: int| 0 <= i < j < after.len() implies #[trigger] stand_in_order(
            after,
            out,
            i,
            j,
        ) by {
            if j == n {
                if inner[i] == own {
                    assert(out[i] == c);
                } else {
                    let k = choose|k: int| 0 <= k < before.len() && before[k] == inner[i];
                    assert(places[k] == inner[i]);
                    assert(out[i] == sorted[k]);
                    assert(stand_in_order(places, sorted, k, n - 1));
                }
            } else {
                assert(stand_in_order(inner, sources::placed(front, c), i, j));
            }
        }
        assert forall|i: int| 0 <= i < after.len() implies #[trigger] after[i] == own
            || places.contains(after[i]) by {
            if i < n {
                if inner[i] != own {
                    let k = choose|k: int| 0 <= k < before.len() && before[k] == inner[i];
                    assert(places[k] == after[i]);
                }
            } else {
                assert(places[n - 1] == after[i]);
            }
        }
        after
    }
}

/// Surfaces are put in order by their scores, and those that score the same
/// stay in order.
pub proof fn law_scores_put_surfaces_in_order(surfaces: Seq<SurfaceView>)
    ensures
        exists|places: Seq<int>|
            #[trigger] ordered_by_score(surfaces, places, sources::by_score(surfaces)),
    decreases surfaces.len(),
{
    if surfaces.len() == 0 {
        assert(ordered_by_score(surfaces, Seq::empty(), sources::by_score(surfaces)));
    } else {
        let front = surfaces.drop_last();
        law_scores_put_surfaces_in_order(front);
        let sorted = sources::by_score(front);
        let places = choose|places: Seq<int>| #[trigger] ordered_by_score(front, places, sorted);
        let own = surfaces.len() - 1;
        assert forall|i: int| 0 <= i < sorted.len() implies 0 <= #[trigger] places[i] < own
            && sorted[i] == surfaces[places[i]] by {
            assert(front[places[i]] == surfaces[places[i]]);
        }
        let after = lemma_placed(places, sorted, surfaces.last(), own, surfaces);
        assert(ordered_by_score(surfaces, after, sources::by_score(surfaces)));
    }
}

proof fn lemma_limited_hits(
    short: Seq<AnnotatedView>,
    long: Seq<AnnotatedView>,
    surfaces: Seq<SurfaceView>,
    source: CandidateSource,
    limit: int,
    more: int,
)
    requires
        0 <= limit <= more,
        short == candidate::at_most(long, limit),
    ensures
        sources::with_hits(short, surfaces, source, limit) == candidate::at_most(
            sources::with_hits(long, surfaces, source, more),
            limit,
        ),
    decreases surfaces.len(),
{
    if surfaces.len() > 0 {
        lemma_limited_hits(short, long, surfaces.drop_last(), source, limit, more);
        let a = sources::with_hits(short, surfaces.drop_last(), source, limit);
        let b = sources::with_hits(long, surfaces.drop_last(), source, more);
        let c = sources::with_hits(short, surfaces, source, limit);
        let d = sources::with_hits(long, surfaces, source, more);
        if a.len() >= limit {
            assert(c == a);
            assert(c =~= candidate::at_most(d, limit));
        } else {
            assert(a == b);
            assert(c =~= candidate::at_most(d, limit));
        }
    }
}

/// Looking fewer words up gives the first of those that looking more up gives:
/// as many as asked for, where there are as many.
pub proof fn law_looking_fewer_words_up(
    user: Option<Seq<EntryView>>,
    system: Option<Seq<EntryView>>,
    reading: Seq<char>,
    limit: int,
    more: int,
)
    requires
        0 <= limit <= more,
    ensures
        ({
            let few = sources::dictionary_candidates(user, system, reading, limit);
            let many = sources::dictionary_candidates(user, system, reading, more);
            &&& few.len() == if limit < many.len() {
                limit
            } else {
                many.len() as int
            }
            &&& forall|i: int| 0 <= i < few.len() ==> #[trigger] few[i] == many[i]
        }),
{
    let none = Seq::<AnnotatedView>::empty();
    assert(none =~= candidate::at_most(none, limit));
    lemma_limited_hits(
        none,
        none,
        sources::known_surfaces(user, reading),
        CandidateSource::UserDictionary,
        limit,
        more,
    );
    lemma_limited_hits(
        sources::with_hits(
            none,
            sources::known_surfaces(user, reading),
            CandidateSource::UserDictionary,
            limit,
        ),
        sources::with_hits(
            none,
            sources::known_surfaces(user, reading),
            CandidateSource::UserDictionary,
            more,
        ),
        sources::by_score(sources::known_surfaces(system, reading)),
        CandidateSource::Dictionary,
        limit,
        more,
    );
}

/// A variant of what was typed is shown for its reading, with the description
/// that it has, in the order in which the variants were given.
pub proof fn law_variants_as_candidates(reading: Seq<char>, rewrites: Seq<RewriteView>, i: int)
    requires
        0 <= i < rewrites.len(),
    ensures
        ({
            let list = sources::rewriter_candidates(reading, rewrites);
            &&& list.len() == rewrites.len()
            &&& list[i].text == rewrites[i].text
            &&& list[i].description == rewrites[i].description
            &&& list[i].reading == Some(reading)
            &&& list[i].source == Some(CandidateSource::Rewriter)
        }),
{
}

} // verus!
