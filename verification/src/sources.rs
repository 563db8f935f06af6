//! Putting the candidates of a reading together from all sources: registered
//! words first, then learned conversions, the model, the system dictionary,
//! plain kana and rule-based variants.

use vstd::prelude::*;
use crate::advice::{AdviceView, LearnedEntry, LearnedView, ReadingAdvice, RewriteView};
use crate::candidate;
use crate::candidate::{AnnotatedCandidate, AnnotatedView, Candidate, CandidateBuilder};
use crate::candidate::{CandidateList, CandidateSource, CandidateView, ListView};
use crate::candidate::annotated_to_candidate_list;
use crate::dictionary;
use crate::dictionary::{Dictionary, DictionaryCandidate, EntryView, SurfaceView};
use crate::kana;
use crate::kana::{hiragana_to_katakana, width_annotation};
use crate::lists::add_item;
use crate::text::{char_count, same_text};

verus! {

/// The most learned candidates that are shown.
pub const MAX_LEARNING_CANDIDATES: usize = 3;

/// A learned sentence longer than this is not offered after its first few
/// kana; exact matches are offered whatever their length.
pub const MAX_LEARNING_PREFIX_READING_CHARS: usize = 12;

pub const MAX_LEARNING_PREFIX_SURFACE_CHARS: usize = 24;

/// A surface put into a list that is ordered by score, behind those that
/// score the same.
pub open spec fn placed(sorted: Seq<SurfaceView>, c: SurfaceView) -> Seq<SurfaceView>
    decreases sorted.len(),
{
    if sorted.len() == 0 || sorted.last().score <= c.score {
        sorted.push(c)
    } else {
        placed(sorted.drop_last(), c).push(sorted.last())
    }
}

/// The surfaces by ascending score; equal scores keep their order.
pub open spec fn by_score(surfaces: Seq<SurfaceView>) -> Seq<SurfaceView>
    decreases surfaces.len(),
{
    if surfaces.len() == 0 {
        Seq::empty()
    } else {
        placed(by_score(surfaces.drop_last()), surfaces.last())
    }
}

/// The list with a dictionary hit added, unless it is full or has the text.
pub open spec fn with_hit(
    list: Seq<AnnotatedView>,
    surface: Seq<char>,
    source: CandidateSource,
    limit: int,
) -> Seq<AnnotatedView> {
    if list.len() >= limit {
        list
    } else {
        candidate::added(list, candidate::plain(surface, source))
    }
}

/// The list with dictionary hits added one after the other.
pub open spec fn with_hits(
    list: Seq<AnnotatedView>,
    surfaces: Seq<SurfaceView>,
    source: CandidateSource,
    limit: int,
) -> Seq<AnnotatedView>
    decreases surfaces.len(),
{
    if surfaces.len() == 0 {
        list
    } else {
        with_hit(
            with_hits(list, surfaces.drop_last(), source, limit),
            surfaces.last().surface,
            source,
            limit,
        )
    }
}

/// The surfaces of a reading in a dictionary that may be missing.
pub open spec fn known_surfaces(dict: Option<Seq<EntryView>>, reading: Seq<char>) -> Seq<
    SurfaceView,
> {
    match dict {
        Some(d) => match dictionary::surfaces_of(d, reading) {
            Some(c) => c,
            None => Seq::empty(),
        },
        None => Seq::empty(),
    }
}

/// The dictionary candidates of a reading: the registered surfaces in their
/// order, then the system's by score, none twice and at most `limit`.
pub open spec fn dictionary_candidates(
    user: Option<Seq<EntryView>>,
    system: Option<Seq<EntryView>>,
    reading: Seq<char>,
    limit: int,
) -> Seq<AnnotatedView> {
    with_hits(
        with_hits(
            Seq::empty(),
            known_surfaces(user, reading),
            CandidateSource::UserDictionary,
            limit,
        ),
        by_score(known_surfaces(system, reading)),
        CandidateSource::Dictionary,
        limit,
    )
}

fn place_by_score(sorted: &mut Vec<DictionaryCandidate>, c: DictionaryCandidate)
    ensures
        final(sorted).deep_view() == placed(old(sorted).deep_view(), c.deep_view()),
{
    let ghost start = sorted.deep_view();
    let n: usize = sorted.len();
    let mut at: usize = n;
    assert(start.take(n as int) =~= start);
    assert(start.skip(n as int) =~= Seq::empty());
    assert(placed(start, c.deep_view()) =~= placed(start.take(n as int), c.deep_view())
        + start.skip(n as int));
    while at > 0 && sorted[at - 1].score > c.score
        invariant
            at <= n,
            n == sorted@.len(),
            start == sorted.deep_view(),
            placed(start, c.deep_view()) == placed(start.take(at as int), c.deep_view())
                + start.skip(at as int),
        decreases at,
    {
        assert(start[at - 1] == sorted@[at - 1].deep_view());
        assert(start.take(at as int).drop_last() =~= start.take(at - 1));
        assert(placed(start.take(at - 1), c.deep_view()).push(start[at - 1]) + start.skip(
            at as int,
        ) =~= placed(start.take(at - 1), c.deep_view()) + start.skip(at - 1));
        at = at - 1;
    }
    proof {
        if at > 0 {
            assert(start[at - 1] == sorted@[at - 1].deep_view());
        }
    }
    sorted.insert(at, c);
    assert(sorted.deep_view() =~= start.take(at as int).push(c.deep_view()) + start.skip(
        at as int,
    ));
}

fn sort_by_score(surfaces: &Vec<DictionaryCandidate>) -> (r: Vec<DictionaryCandidate>)
    ensures
        r.deep_view() == by_score(surfaces.deep_view()),
{
    let ghost all = surfaces.deep_view();
    let mut sorted: Vec<DictionaryCandidate> = Vec::new();
    assert(sorted.deep_view() =~= by_score(all.take(0)));
    let mut i: usize = 0;
    while i < surfaces.len()
        invariant
            i <= surfaces@.len(),
            all == surfaces.deep_view(),
            sorted.deep_view() == by_score(all.take(i as int)),
        decreases surfaces@.len() - i,
    {
        assert(all[i as int] == surfaces@[i as int].deep_view());
        assert(all.take(i + 1).drop_last() =~= all.take(i as int));
        place_by_score(&mut sorted, surfaces[i].clone());
        i = i + 1;
    }
    assert(all.take(i as int) =~= all);
    sorted
}

fn add_hits(
    builder: &mut CandidateBuilder,
    surfaces: &Vec<DictionaryCandidate>,
    source: CandidateSource,
    limit: usize,
)
    ensures
        final(builder).candidates.deep_view() == with_hits(
            old(builder).candidates.deep_view(),
            surfaces.deep_view(),
            source,
            limit as int,
        ),
{
    let ghost start = builder.candidates.deep_view();
    let ghost all = surfaces.deep_view();
    assert(all.take(0) =~= Seq::empty());
    let mut i: usize = 0;
    while i < surfaces.len()
        invariant
            i <= surfaces@.len(),
            all == surfaces.deep_view(),
            builder.candidates.deep_view() == with_hits(
                start,
                all.take(i as int),
                source,
                limit as int,
            ),
        decreases surfaces@.len() - i,
    {
        assert(all[i as int] == surfaces@[i as int].deep_view());
        assert(all.take(i + 1).drop_last() =~= all.take(i as int));
        if builder.candidates.len() < limit {
            builder.push(AnnotatedCandidate::new(surfaces[i].surface.clone(), source));
        }
        i = i + 1;
    }
    assert(all.take(i as int) =~= all);
}

/// Searches the registered words, then the system dictionary by score.
pub fn search_dictionaries(
    user: &Option<Dictionary>,
    system: &Option<Dictionary>,
    reading: &str,
    limit: usize,
) -> (r: Vec<AnnotatedCandidate>)
    ensures
        r.deep_view() == dictionary_candidates(
            user.deep_view(),
            system.deep_view(),
            reading@,
            limit as int,
        ),
{
    let mut builder = CandidateBuilder::new();
    match user {
        Some(d) => match d.exact_match_search(reading) {
            Some(entry) => {
                add_hits(
                    &mut builder,
                    &entry.candidates,
                    CandidateSource::UserDictionary,
                    limit,
                );
            },
            None => {},
        },
        None => {},
    }
    match system {
        Some(d) => match d.exact_match_search(reading) {
            Some(entry) => {
                let sorted = sort_by_score(&entry.candidates);
                add_hits(&mut builder, &sorted, CandidateSource::Dictionary, limit);
            },
            None => {},
        },
        None => {},
    }
    builder.into_candidates()
}

/// A learned candidate.
pub open spec fn learned(surface: Seq<char>, reading: Seq<char>) -> CandidateView {
    CandidateView {
        text: surface,
        reading: Some(reading),
        source: Some(CandidateSource::Learning),
        description: None,
    }
}

/// Some shown candidate has this text.
pub open spec fn shows_text(list: Seq<CandidateView>, text: Seq<char>) -> bool {
    exists|i: int| 0 <= i < list.len() && (#[trigger] list[i]).text == text
}

/// The list with a learned candidate added, unless it is full or has the
/// text.
pub open spec fn with_learned(
    list: Seq<CandidateView>,
    surface: Seq<char>,
    reading: Seq<char>,
) -> Seq<CandidateView> {
    if list.len() >= MAX_LEARNING_CANDIDATES || shows_text(list, surface) {
        list
    } else {
        list.push(learned(surface, reading))
    }
}

/// The learned surfaces of the reading itself, added one after the other.
pub open spec fn with_exact(
    list: Seq<CandidateView>,
    reading: Seq<char>,
    surfaces: Seq<Seq<char>>,
) -> Seq<CandidateView>
    decreases surfaces.len(),
{
    if surfaces.len() == 0 {
        list
    } else {
        with_learned(with_exact(list, reading, surfaces.drop_last()), surfaces.last(), reading)
    }
}

/// A learned entry is offered as a prediction: it is for a longer reading,
/// and short enough.
pub open spec fn predicts(reading: Seq<char>, entry: LearnedView) -> bool {
    entry.reading != reading && entry.reading.len() <= MAX_LEARNING_PREFIX_READING_CHARS
        && entry.surface.len() <= MAX_LEARNING_PREFIX_SURFACE_CHARS
}

/// The learned predictions, added one after the other.
pub open spec fn with_predictions(
    list: Seq<CandidateView>,
    reading: Seq<char>,
    entries: Seq<LearnedView>,
) -> Seq<CandidateView>
    decreases entries.len(),
{
    if entries.len() == 0 {
        list
    } else {
        let before = with_predictions(list, reading, entries.drop_last());
        if predicts(reading, entries.last()) {
            with_learned(before, entries.last().surface, entries.last().reading)
        } else {
            before
        }
    }
}

/// The learned candidates of a reading: exact matches first, then
/// predictions; none where learning is off.
pub open spec fn learned_candidates(
    enabled: bool,
    reading: Seq<char>,
    exact: Seq<Seq<char>>,
    prefix: Seq<LearnedView>,
) -> Seq<CandidateView> {
    if enabled {
        with_predictions(with_exact(Seq::empty(), reading, exact), reading, prefix)
    } else {
        Seq::empty()
    }
}

fn push_learned(list: &mut Vec<Candidate>, surface: &String, reading: &str)
    ensures
        final(list).deep_view() == with_learned(old(list).deep_view(), surface@, reading@),
{
    if list.len() >= MAX_LEARNING_CANDIDATES {
        return;
    }
    let ghost start = list.deep_view();
    let mut i: usize = 0;
    while i < list.len()
        invariant
            i <= list@.len(),
            start == list.deep_view(),
            forall|k: int| 0 <= k < i ==> (#[trigger] start[k]).text != surface@,
        decreases list@.len() - i,
    {
        assert(start[i as int] == list@[i as int].deep_view());
        if list[i].text == *surface {
            return;
        }
        i = i + 1;
    }
    add_item(
        list,
        Candidate {
            text: surface.clone(),
            reading: Some(reading.to_owned()),
            source: Some(CandidateSource::Learning),
            description: None,
        },
    );
}

/// Looks up the learned candidates of a reading, exact and predicted.
pub fn lookup_learning_candidates(
    enabled: bool,
    reading: &str,
    exact: &Vec<String>,
    prefix: &Vec<LearnedEntry>,
) -> (r: Vec<Candidate>)
    ensures
        r.deep_view() == learned_candidates(
            enabled,
            reading@,
            exact.deep_view(),
            prefix.deep_view(),
        ),
{
    let mut list: Vec<Candidate> = Vec::new();
    assert(list.deep_view() =~= Seq::empty());
    if !enabled {
        return list;
    }
    let ghost surfaces = exact.deep_view();
    assert(surfaces.take(0) =~= Seq::empty());
    let mut i: usize = 0;
    while i < exact.len()
        invariant
            i <= exact@.len(),
            surfaces == exact.deep_view(),
            list.deep_view() == with_exact(Seq::empty(), reading@, surfaces.take(i as int)),
        decreases exact@.len() - i,
    {
        assert(surfaces[i as int] == exact@[i as int]@);
        assert(surfaces.take(i + 1).drop_last() =~= surfaces.take(i as int));
        push_learned(&mut list, &exact[i], reading);
        i = i + 1;
    }
    assert(surfaces.take(i as int) =~= surfaces);
    let ghost start = list.deep_view();
    let ghost entries = prefix.deep_view();
    assert(entries.take(0) =~= Seq::empty());
    let mut j: usize = 0;
    while j < prefix.len()
        invariant
            j <= prefix@.len(),
            entries == prefix.deep_view(),
            list.deep_view() == with_predictions(start, reading@, entries.take(j as int)),
        decreases prefix@.len() - j,
    {
        let entry = &prefix[j];
        assert(entries[j as int] == entry.deep_view());
        assert(entries.take(j + 1).drop_last() =~= entries.take(j as int));
        if !same_text(entry.reading.as_str(), reading) && char_count(entry.reading.as_str())
            <= MAX_LEARNING_PREFIX_READING_CHARS && char_count(entry.surface.as_str())
            <= MAX_LEARNING_PREFIX_SURFACE_CHARS {
            push_learned(&mut list, &entry.surface, entry.reading.as_str());
        }
        j = j + 1;
    }
    assert(entries.take(j as int) =~= entries);
    list
}

/// The variants of what was typed, as candidates for display.
pub open spec fn rewriter_candidates(reading: Seq<char>, rewrites: Seq<RewriteView>) -> Seq<
    CandidateView,
> {
    Seq::new(
        rewrites.len(),
        |i: int|
            CandidateView {
                text: rewrites[i].text,
                reading: Some(reading),
                source: Some(CandidateSource::Rewriter),
                description: rewrites[i].description,
            },
    )
}

/// The rule-based variants of what was typed, as candidates for display.
pub fn lookup_rewriter_variants(advice: &ReadingAdvice) -> (r: Vec<Candidate>)
    ensures
        r.deep_view() == rewriter_candidates(
            advice.deep_view().reading,
            advice.deep_view().rewrites,
        ),
{
    let ghost goal = rewriter_candidates(
        advice.deep_view().reading,
        advice.deep_view().rewrites,
    );
    let mut out: Vec<Candidate> = Vec::new();
    let mut i: usize = 0;
    while i < advice.rewrites.len()
        invariant
            i <= advice.rewrites@.len(),
            goal == rewriter_candidates(advice.deep_view().reading, advice.deep_view().rewrites),
            out.deep_view() == goal.take(i as int),
        decreases advice.rewrites@.len() - i,
    {
        let rewrite = &advice.rewrites[i];
        assert(advice.deep_view().rewrites[i as int] == rewrite.deep_view());
        add_item(
            &mut out,
            Candidate {
                text: rewrite.text.clone(),
                reading: Some(advice.reading.clone()),
                source: Some(CandidateSource::Rewriter),
                description: rewrite.description.clone(),
            },
        );
        i = i + 1;
        assert(out.deep_view() =~= goal.take(i as int));
    }
    assert(goal.take(i as int) =~= goal);
    out
}

/// What decides, besides the reading, which candidates it has.
pub struct Setting {
    pub user: Option<Seq<EntryView>>,
    pub system: Option<Seq<EntryView>>,
    pub learning: bool,
    pub emoji: bool,
}

/// The candidates of a list that come from `source`.
pub open spec fn only_from(list: Seq<AnnotatedView>, source: CandidateSource) -> Seq<
    AnnotatedView,
> {
    list.filter(|c: AnnotatedView| c.source == source)
}

/// A learned candidate in the list being put together; the reading is noted
/// only where it differs from what was typed.
pub open spec fn as_learning(c: CandidateView, reading: Seq<char>) -> AnnotatedView {
    AnnotatedView {
        text: c.text,
        source: CandidateSource::Learning,
        reading: if c.reading == Some(reading) {
            None
        } else {
            c.reading
        },
        description: None,
    }
}

pub open spec fn all_as_learning(list: Seq<CandidateView>, reading: Seq<char>) -> Seq<
    AnnotatedView,
> {
    Seq::new(list.len(), |i: int| as_learning(list[i], reading))
}

/// The conversions of the model as candidates.
pub open spec fn all_as_model(texts: Seq<Seq<char>>) -> Seq<AnnotatedView> {
    Seq::new(texts.len(), |i: int| candidate::plain(texts[i], CandidateSource::Model))
}

/// The variants of what was typed as candidates.
pub open spec fn all_as_rewrites(rewrites: Seq<RewriteView>) -> Seq<AnnotatedView> {
    Seq::new(
        rewrites.len(),
        |i: int|
            AnnotatedView {
                text: rewrites[i].text,
                source: CandidateSource::Rewriter,
                reading: None,
                description: rewrites[i].description,
            },
    )
}

/// Registered words, and learned conversions unless these are to be skipped.
pub open spec fn known_conversions(
    setting: Setting,
    reading: Seq<char>,
    advice: AdviceView,
    skip_learning: bool,
) -> Seq<AnnotatedView> {
    let hits = dictionary_candidates(setting.user, setting.system, reading, usize::MAX as int);
    let registered = candidate::added_all(
        Seq::empty(),
        only_from(hits, CandidateSource::UserDictionary),
    );
    if skip_learning {
        registered
    } else {
        candidate::added_all(
            registered,
            all_as_learning(
                learned_candidates(
                    setting.learning,
                    reading,
                    advice.learned_exact,
                    advice.learned_prefix,
                ),
                reading,
            ),
        )
    }
}

/// The known conversions followed by those of the model.
pub open spec fn with_model(
    setting: Setting,
    reading: Seq<char>,
    advice: AdviceView,
    skip_learning: bool,
) -> Seq<AnnotatedView> {
    let known = known_conversions(setting, reading, advice, skip_learning);
    candidate::added_all(known, all_as_model(advice.model))
}

/// All candidates of a reading, in order. When an emoji is being looked for,
/// the plain kana forms are left out.
pub open spec fn all_candidates(
    setting: Setting,
    reading: Seq<char>,
    advice: AdviceView,
    skip_learning: bool,
) -> Seq<AnnotatedView> {
    let hits = dictionary_candidates(setting.user, setting.system, reading, usize::MAX as int);
    let converted = candidate::added_all(
        with_model(setting, reading, advice, skip_learning),
        only_from(hits, CandidateSource::Dictionary),
    );
    let with_kana = if setting.emoji {
        converted
    } else {
        candidate::added(
            candidate::added(converted, candidate::plain(reading, CandidateSource::Fallback)),
            candidate::plain(kana::in_katakana(reading), CandidateSource::Fallback),
        )
    };
    candidate::added_all(with_kana, all_as_rewrites(advice.rewrites))
}

/// The name of the text, where it is what was typed, or its katakana form,
/// and a known symbol.
pub open spec fn symbol_name(text: Seq<char>, reading: Seq<char>, advice: AdviceView) -> Option<
    Seq<char>,
> {
    if text == reading {
        advice.reading_symbol
    } else if text == kana::in_katakana(reading) {
        advice.katakana_symbol
    } else {
        None
    }
}

/// A candidate with its description: a plain kana form that is a known symbol
/// gets the name of the symbol, any candidate in one kana script its label.
pub open spec fn labelled(c: AnnotatedView, reading: Seq<char>, advice: AdviceView) -> AnnotatedView {
    let named = if c.source == CandidateSource::Fallback && c.description is None {
        symbol_name(c.text, reading, advice)
    } else {
        c.description
    };
    AnnotatedView {
        description: if named is None {
            kana::width_label(c.text)
        } else {
            named
        },
        ..c
    }
}

/// The candidates of a reading, described.
pub open spec fn conversion_candidates(
    setting: Setting,
    reading: Seq<char>,
    advice: AdviceView,
    skip_learning: bool,
) -> Seq<AnnotatedView> {
    let all = all_candidates(setting, reading, advice, skip_learning);
    Seq::new(all.len(), |i: int| labelled(all[i], reading, advice))
}

fn pick_source(list: &Vec<AnnotatedCandidate>, source: CandidateSource) -> (r: Vec<
    AnnotatedCandidate,
>)
    ensures
        r.deep_view() == only_from(list.deep_view(), source),
{
    let ghost all = list.deep_view();
    let ghost pred = |c: AnnotatedView| c.source == source;
    let mut out: Vec<AnnotatedCandidate> = Vec::new();
    proof {
        reveal(Seq::filter);
        assert(all.take(0) =~= Seq::empty());
        assert(out.deep_view() =~= all.take(0).filter(pred));
    }
    let mut i: usize = 0;
    while i < list.len()
        invariant
            i <= list@.len(),
            all == list.deep_view(),
            pred == (|c: AnnotatedView| c.source == source),
            out.deep_view() == all.take(i as int).filter(pred),
        decreases list@.len() - i,
    {
        proof {
            reveal(Seq::filter);
            assert(all[i as int] == list@[i as int].deep_view());
            assert(all.take(i + 1).drop_last() =~= all.take(i as int));
        }
        if list[i].source == source {
            add_item(&mut out, list[i].clone());
        }
        i = i + 1;
    }
    assert(all.take(i as int) =~= all);
    out
}

fn learning_annotated(list: &Vec<Candidate>, reading: &str) -> (r: Vec<AnnotatedCandidate>)
    ensures
        r.deep_view() == all_as_learning(list.deep_view(), reading@),
{
    let ghost goal = all_as_learning(list.deep_view(), reading@);
    let mut out: Vec<AnnotatedCandidate> = Vec::new();
    let mut i: usize = 0;
    while i < list.len()
        invariant
            i <= list@.len(),
            goal == all_as_learning(list.deep_view(), reading@),
            out.deep_view() == goal.take(i as int),
        decreases list@.len() - i,
    {
        let c = &list[i];
        assert(list.deep_view()[i as int] == c.deep_view());
        let own: Option<String> = match &c.reading {
            Some(r) => if same_text(r.as_str(), reading) {
                None
            } else {
                Some(r.clone())
            },
            None => None,
        };
        add_item(
            &mut out,
            AnnotatedCandidate {
                text: c.text.clone(),
                source: CandidateSource::Learning,
                reading: own,
                description: None,
            },
        );
        i = i + 1;
        assert(out.deep_view() =~= goal.take(i as int));
    }
    assert(goal.take(i as int) =~= goal);
    out
}

fn model_annotated(texts: &Vec<String>) -> (r: Vec<AnnotatedCandidate>)
    ensures
        r.deep_view() == all_as_model(texts.deep_view()),
{
    let ghost goal = all_as_model(texts.deep_view());
    let mut out: Vec<AnnotatedCandidate> = Vec::new();
    let mut i: usize = 0;
    while i < texts.len()
        invariant
            i <= texts@.len(),
            goal == all_as_model(texts.deep_view()),
            out.deep_view() == goal.take(i as int),
        decreases texts@.len() - i,
    {
        add_item(&mut out, AnnotatedCandidate::new(texts[i].clone(), CandidateSource::Model));
        i = i + 1;
        assert(out.deep_view() =~= goal.take(i as int));
    }
    assert(goal.take(i as int) =~= goal);
    out
}

fn rewrites_annotated(advice: &ReadingAdvice) -> (r: Vec<AnnotatedCandidate>)
    ensures
        r.deep_view() == all_as_rewrites(advice.deep_view().rewrites),
{
    let ghost goal = all_as_rewrites(advice.deep_view().rewrites);
    let mut out: Vec<AnnotatedCandidate> = Vec::new();
    let mut i: usize = 0;
    while i < advice.rewrites.len()
        invariant
            i <= advice.rewrites@.len(),
            goal == all_as_rewrites(advice.deep_view().rewrites),
            out.deep_view() == goal.take(i as int),
        decreases advice.rewrites@.len() - i,
    {
        let rewrite = &advice.rewrites[i];
        assert(advice.deep_view().rewrites[i as int] == rewrite.deep_view());
        add_item(
            &mut out,
            AnnotatedCandidate {
                text: rewrite.text.clone(),
                source: CandidateSource::Rewriter,
                reading: None,
                description: rewrite.description.clone(),
            },
        );
        i = i + 1;
        assert(out.deep_view() =~= goal.take(i as int));
    }
    assert(goal.take(i as int) =~= goal);
    out
}

fn label(c: &AnnotatedCandidate, reading: &str, katakana: &String, advice: &ReadingAdvice) -> (r:
    AnnotatedCandidate)
    requires
        katakana@ == kana::in_katakana(reading@),
    ensures
        r.deep_view() == labelled(c.deep_view(), reading@, advice.deep_view()),
{
    let named: Option<String> = if c.source == CandidateSource::Fallback
        && c.description.is_none() {
        if same_text(c.text.as_str(), reading) {
            advice.reading_symbol.clone()
        } else if c.text == *katakana {
            advice.katakana_symbol.clone()
        } else {
            None
        }
    } else {
        c.description.clone()
    };
    let description: Option<String> = match named {
        Some(name) => Some(name),
        None => match width_annotation(c.text.as_str()) {
            Some(width) => Some(width.to_owned()),
            None => None,
        },
    };
    AnnotatedCandidate {
        text: c.text.clone(),
        source: c.source,
        reading: c.reading.clone(),
        description,
    }
}

/// Puts together the candidates of a reading: registered words, learned
/// conversions, the model, the system dictionary, plain kana, variants.
pub fn build_conversion_candidates(
    user: &Option<Dictionary>,
    system: &Option<Dictionary>,
    learning: bool,
    emoji: bool,
    reading: &str,
    advice: &ReadingAdvice,
    skip_learning: bool,
) -> (r: Vec<AnnotatedCandidate>)
    ensures
        r.deep_view() == conversion_candidates(
            Setting { user: user.deep_view(), system: system.deep_view(), learning, emoji },
            reading@,
            advice.deep_view(),
            skip_learning,
        ),
{
    let ghost setting = Setting {
        user: user.deep_view(),
        system: system.deep_view(),
        learning,
        emoji,
    };
    let katakana = hiragana_to_katakana(reading);
    let mut builder = CandidateBuilder::new();
    let hits = search_dictionaries(user, system, reading, usize::MAX);

    let registered = pick_source(&hits, CandidateSource::UserDictionary);
    builder.push_all(&registered);

    if !skip_learning {
        let learned_list = lookup_learning_candidates(
            learning,
            reading,
            &advice.learned_exact,
            &advice.learned_prefix,
        );
        let annotated = learning_annotated(&learned_list, reading);
        builder.push_all(&annotated);
    }
    assert(builder.candidates.deep_view() == known_conversions(
        setting,
        reading@,
        advice.deep_view(),
        skip_learning,
    ));

    let annotated = model_annotated(&advice.model);
    builder.push_all(&annotated);
    let listed = pick_source(&hits, CandidateSource::Dictionary);
    builder.push_all(&listed);

    if !emoji {
        builder.push(AnnotatedCandidate::new(reading.to_owned(), CandidateSource::Fallback));
        builder.push(AnnotatedCandidate::new(katakana.clone(), CandidateSource::Fallback));
    }
    let variants = rewrites_annotated(advice);
    builder.push_all(&variants);

    let all = builder.into_candidates();
    let ghost views = all.deep_view();
    assert(views == all_candidates(setting, reading@, advice.deep_view(), skip_learning));
    let ghost goal = conversion_candidates(
        setting,
        reading@,
        advice.deep_view(),
        skip_learning,
    );
    let mut out: Vec<AnnotatedCandidate> = Vec::new();
    let mut i: usize = 0;
    while i < all.len()
        invariant
            i <= all@.len(),
            views == all.deep_view(),
            goal == Seq::new(
                views.len(),
                |i: int| labelled(views[i], reading@, advice.deep_view()),
            ),
            katakana@ == kana::in_katakana(reading@),
            out.deep_view() == goal.take(i as int),
        decreases all@.len() - i,
    {
        assert(views[i as int] == all@[i as int].deep_view());
        add_item(&mut out, label(&all[i], reading, &katakana, advice));
        i = i + 1;
        assert(out.deep_view() =~= goal.take(i as int));
    }
    assert(goal.take(i as int) =~= goal);
    out
}

/// The first position of a text in the list, looking from `from` on.
pub open spec fn position_of(list: Seq<AnnotatedView>, text: Seq<char>, from: int) -> Option<int>
    decreases list.len() - from,
{
    if from < 0 || from >= list.len() {
        None
    } else if list[from].text == text {
        Some(from)
    } else {
        position_of(list, text, from + 1)
    }
}

/// The list with a preferred text at its front: moved there where the list has
/// it, else put there as a conversion of the model. The reading itself is
/// never put there.
pub open spec fn promoted(
    list: Seq<AnnotatedView>,
    preferred: Option<Seq<char>>,
    reading: Seq<char>,
) -> Seq<AnnotatedView> {
    match preferred {
        Some(text) => if text.len() == 0 {
            list
        } else {
            match position_of(list, text, 0) {
                Some(i) => seq![list[i]] + list.remove(i),
                None => if text == reading {
                    list
                } else {
                    seq![candidate::plain(text, CandidateSource::Model)] + list
                },
            }
        },
        None => list,
    }
}

/// The candidates of a clause, as they are shown.
pub open spec fn clause_candidates(
    setting: Setting,
    reading: Seq<char>,
    preferred: Option<Seq<char>>,
    skip_learning: bool,
    advice: AdviceView,
) -> ListView {
    candidate::shown_list(
        promoted(conversion_candidates(setting, reading, advice, skip_learning), preferred, reading),
        reading,
    )
}

fn find_text(list: &Vec<AnnotatedCandidate>, text: &str) -> (r: Option<usize>)
    ensures
        match r {
            Some(i) => position_of(list.deep_view(), text@, 0) == Some(i as int) && i < list@.len(),
            None => position_of(list.deep_view(), text@, 0) is None,
        },
{
    let mut i: usize = 0;
    while i < list.len()
        invariant
            i <= list@.len(),
            position_of(list.deep_view(), text@, 0) == position_of(
                list.deep_view(),
                text@,
                i as int,
            ),
        decreases list@.len() - i,
    {
        assert(list.deep_view()[i as int] == list@[i as int].deep_view());
        if same_text(list[i].text.as_str(), text) {
            return Some(i);
        }
        i = i + 1;
    }
    None
}

fn promote(list: Vec<AnnotatedCandidate>, preferred: &Option<String>, reading: &str) -> (r: Vec<
    AnnotatedCandidate,
>)
    ensures
        r.deep_view() == promoted(list.deep_view(), preferred.deep_view(), reading@),
{
    let ghost before = list.deep_view();
    let mut list = list;
    match preferred {
        Some(text) => {
            if text.as_str().is_empty() {
                return list;
            }
            match find_text(&list, text.as_str()) {
                Some(i) => {
                    let found = list.remove(i);
                    assert(found.deep_view() == before[i as int]);
                    list.insert(0, found);
                    assert(list.deep_view() =~= seq![before[i as int]] + before.remove(i as int));
                },
                None => {
                    if !same_text(text.as_str(), reading) {
                        let given = AnnotatedCandidate::new(text.clone(), CandidateSource::Model);
                        list.insert(0, given);
                        assert(list.deep_view() =~= seq![given.deep_view()] + before);
                    }
                },
            }
        },
        None => {},
    }
    list
}

/// Puts together the list of candidates of a clause; a preferred text is
/// selected at first.
pub fn candidate_list_for_conversion_segment(
    user: &Option<Dictionary>,
    system: &Option<Dictionary>,
    learning: bool,
    emoji: bool,
    reading: &str,
    preferred: &Option<String>,
    skip_learning: bool,
    advice: &ReadingAdvice,
) -> (r: CandidateList)
    ensures
        r.deep_view() == clause_candidates(
            Setting { user: user.deep_view(), system: system.deep_view(), learning, emoji },
            reading@,
            preferred.deep_view(),
            skip_learning,
            advice.deep_view(),
        ),
{
    let list = build_conversion_candidates(
        user,
        system,
        learning,
        emoji,
        reading,
        advice,
        skip_learning,
    );
    let list = promote(list, preferred, reading);
    annotated_to_candidate_list(list, reading)
}

/// No candidate from position `from` on comes from `source`.
pub open spec fn none_from(list: Seq<AnnotatedView>, from: int, source: CandidateSource) -> bool {
    forall|i: int| from <= i < list.len() ==> (#[trigger] list[i]).source != source
}

pub proof fn lemma_tail_sources(
    list: Seq<AnnotatedView>,
    more: Seq<AnnotatedView>,
    from: int,
    source: CandidateSource,
)
    requires
        candidate::distinct_texts(list),
        0 <= from <= list.len(),
        none_from(list, from, source),
        none_from(more, 0, source),
    ensures
        none_from(candidate::added_all(list, more), from, source),
        candidate::distinct_texts(candidate::added_all(list, more)),
        list.is_prefix_of(candidate::added_all(list, more)),
{
    candidate::law_adding_keeps_texts_distinct(list, more);
    let all = candidate::added_all(list, more);
    assert forall|i: int| from <= i < all.len() implies (#[trigger] all[i]).source != source by {
        if i < list.len() {
            assert(all[i] == list[i]);
        } else {
            assert(more.contains(all[i]));
        }
    }
}

pub proof fn lemma_added_is_one(list: Seq<AnnotatedView>, c: AnnotatedView)
    ensures
        candidate::added(list, c) == candidate::added_all(list, seq![c]),
{
    assert(seq![c].drop_last() =~= Seq::empty());
    assert(candidate::added_all(list, Seq::empty()) == list);
    assert(seq![c].last() == c);
}

proof fn lemma_only_from(list: Seq<AnnotatedView>, source: CandidateSource)
    ensures
        forall|i: int|
            0 <= i < only_from(list, source).len() ==> (#[trigger] only_from(list, source)[i]).source
                == source,
{
    broadcast use vstd::seq_lib::group_filter_ensures;

}

/// The known conversions begin with the registered words and have no others
/// behind them.
proof fn lemma_known(
    setting: Setting,
    reading: Seq<char>,
    advice: AdviceView,
    skip_learning: bool,
) -> (registered: Seq<AnnotatedView>)
    ensures
        registered == candidate::added_all(
            Seq::empty(),
            only_from(
                dictionary_candidates(setting.user, setting.system, reading, usize::MAX as int),
                CandidateSource::UserDictionary,
            ),
        ),
        forall|i: int|
            0 <= i < registered.len() ==> (#[trigger] registered[i]).source
                == CandidateSource::UserDictionary,
        registered.is_prefix_of(known_conversions(setting, reading, advice, skip_learning)),
        candidate::distinct_texts(known_conversions(setting, reading, advice, skip_learning)),
        none_from(
            known_conversions(setting, reading, advice, skip_learning),
            registered.len() as int,
            CandidateSource::UserDictionary,
        ),
        none_from(
            known_conversions(setting, reading, advice, skip_learning),
            0,
            CandidateSource::Fallback,
        ),
        skip_learning ==> none_from(
            known_conversions(setting, reading, advice, skip_learning),
            0,
            CandidateSource::Learning,
        ),
{
    let hits = dictionary_candidates(setting.user, setting.system, reading, usize::MAX as int);
    let words = only_from(hits, CandidateSource::UserDictionary);
    let registered = candidate::added_all(Seq::empty(), words);
    lemma_only_from(hits, CandidateSource::UserDictionary);
    lemma_tail_sources(Seq::empty(), words, 0, CandidateSource::Learning);
    lemma_tail_sources(Seq::empty(), words, 0, CandidateSource::Fallback);
    candidate::law_adding_keeps_texts_distinct(Seq::empty(), words);
    assert forall|i: int| 0 <= i < registered.len() implies (#[trigger] registered[i]).source
        == CandidateSource::UserDictionary by {
        assert(words.contains(registered[i]));
    }
    if !skip_learning {
        let learned = all_as_learning(
            learned_candidates(
                setting.learning,
                reading,
                advice.learned_exact,
                advice.learned_prefix,
            ),
            reading,
        );
        lemma_tail_sources(
            registered,
            learned,
            registered.len() as int,
            CandidateSource::UserDictionary,
        );
        lemma_tail_sources(registered, learned, 0, CandidateSource::Fallback);
    }
    registered
}

/// All that is said of a list of candidates as a whole, before descriptions.
proof fn lemma_all_candidates(
    setting: Setting,
    reading: Seq<char>,
    advice: AdviceView,
    skip_learning: bool,
)
    ensures
        ({
            let all = all_candidates(setting, reading, advice, skip_learning);
            let known = known_conversions(setting, reading, advice, skip_learning);
            &&& candidate::distinct_texts(all)
            &&& known.is_prefix_of(all)
            &&& none_from(all, known.len() as int, CandidateSource::UserDictionary)
            &&& none_from(all, known.len() as int, CandidateSource::Learning)
            &&& setting.emoji ==> none_from(all, 0, CandidateSource::Fallback)
            &&& !setting.emoji ==> candidate::has_text(all, reading) && candidate::has_text(
                all,
                kana::in_katakana(reading),
            )
            &&& forall|i: int|
                0 <= i < advice.model.len() ==> candidate::has_text(all, #[trigger] advice.model[i])
            &&& forall|i: int|
                0 <= i < advice.rewrites.len() ==> candidate::has_text(
                    all,
                    (#[trigger] advice.rewrites[i]).text,
                )
        }),
{
    let known = known_conversions(setting, reading, advice, skip_learning);
    let k = known.len() as int;
    let registered = lemma_known(setting, reading, advice, skip_learning);
    let hits = dictionary_candidates(setting.user, setting.system, reading, usize::MAX as int);
    let user = CandidateSource::UserDictionary;
    let learning = CandidateSource::Learning;
    let fallback = CandidateSource::Fallback;

    let typed = candidate::plain(reading, fallback);
    let katakana = candidate::plain(kana::in_katakana(reading), fallback);
    let l2 = with_model(setting, reading, advice, skip_learning);
    let first = all_as_model(advice.model);
    lemma_tail_sources(known, first, k, user);
    lemma_tail_sources(known, first, k, learning);
    candidate::law_adding_keeps_texts_distinct(known, first);
    if setting.emoji {
        lemma_tail_sources(known, first, 0, fallback);
    }

    let listed = only_from(hits, CandidateSource::Dictionary);
    lemma_only_from(hits, CandidateSource::Dictionary);
    let l3 = candidate::added_all(l2, listed);
    lemma_tail_sources(l2, listed, k, user);
    lemma_tail_sources(l2, listed, k, learning);
    if setting.emoji {
        lemma_tail_sources(l2, listed, 0, fallback);
    }

    let l4 = if setting.emoji {
        l3
    } else {
        candidate::added(candidate::added(l3, typed), katakana)
    };
    if !setting.emoji {
        lemma_added_is_one(l3, typed);
        let one = candidate::added(l3, typed);
        lemma_tail_sources(l3, seq![typed], k, user);
        lemma_tail_sources(l3, seq![typed], k, learning);
        lemma_added_is_one(one, katakana);
        lemma_tail_sources(one, seq![katakana], k, user);
        lemma_tail_sources(one, seq![katakana], k, learning);
        candidate::law_adding_keeps_texts_distinct(l3, seq![typed]);
        candidate::law_adding_keeps_texts_distinct(one, seq![katakana]);
        assert(candidate::has_text(one, seq![typed][0].text));
        assert(candidate::has_text(l4, seq![katakana][0].text));
        lemma_prefix_has_text(one, l4, reading);
    }

    let rewrites = all_as_rewrites(advice.rewrites);
    let all = candidate::added_all(l4, rewrites);
    lemma_tail_sources(l4, rewrites, k, user);
    lemma_tail_sources(l4, rewrites, k, learning);
    candidate::law_adding_keeps_texts_distinct(l4, rewrites);
    if setting.emoji {
        lemma_tail_sources(l4, rewrites, 0, fallback);
    } else {
        lemma_prefix_has_text(l4, all, reading);
        lemma_prefix_has_text(l4, all, kana::in_katakana(reading));
    }
    assert forall|i: int| 0 <= i < advice.model.len() implies candidate::has_text(
        all,
        #[trigger] advice.model[i],
    ) by {
        assert(candidate::has_text(l2, first[i].text));
        assert(l2.is_prefix_of(l3));
        assert(l3.is_prefix_of(l4));
        lemma_prefix_has_text(l2, all, advice.model[i]);
    }
    assert forall|i: int| 0 <= i < advice.rewrites.len() implies candidate::has_text(
        all,
        (#[trigger] advice.rewrites[i]).text,
    ) by {
        assert(candidate::has_text(all, rewrites[i].text));
    }
}

proof fn lemma_prefix_has_text(a: Seq<AnnotatedView>, b: Seq<AnnotatedView>, text: Seq<char>)
    requires
        a.is_prefix_of(b),
        candidate::has_text(a, text),
    ensures
        candidate::has_text(b, text),
{
    let i = choose|i: int| 0 <= i < a.len() && (#[trigger] a[i]).text == text;
    assert(b[i] == a[i]);
}

/// No text is offered twice.
pub proof fn law_candidates_are_distinct(
    setting: Setting,
    reading: Seq<char>,
    advice: AdviceView,
    skip_learning: bool,
)
    ensures
        candidate::distinct_texts(conversion_candidates(setting, reading, advice, skip_learning)),
{
    lemma_all_candidates(setting, reading, advice, skip_learning);
    let all = all_candidates(setting, reading, advice, skip_learning);
    let shown = conversion_candidates(setting, reading, advice, skip_learning);
    assert forall|i: int, j: int| 0 <= i < j < shown.len() implies (#[trigger] shown[i]).text != (
    #[trigger] shown[j]).text by {
        assert(all[i].text != all[j].text);
    }
}

/// Explicit registrations win: they stand before all other candidates, and
/// learned conversions stand before what the model and the system dictionary
/// have.
pub proof fn law_registered_words_come_first(
    setting: Setting,
    reading: Seq<char>,
    advice: AdviceView,
    skip_learning: bool,
    i: int,
    j: int,
)
    requires
        0 <= i < j < conversion_candidates(setting, reading, advice, skip_learning).len(),
    ensures
        ({
            let shown = conversion_candidates(setting, reading, advice, skip_learning);
            &&& shown[j].source == CandidateSource::UserDictionary ==> shown[i].source
                == CandidateSource::UserDictionary
            &&& shown[j].source == CandidateSource::Learning ==> shown[i].source
                == CandidateSource::UserDictionary || shown[i].source == CandidateSource::Learning
        }),
{
    law_sources_are_in_order(setting, reading, advice, skip_learning, i, j);
}

proof fn lemma_known_sources(
    setting: Setting,
    reading: Seq<char>,
    advice: AdviceView,
    skip_learning: bool,
    i: int,
)
    requires
        0 <= i < known_conversions(setting, reading, advice, skip_learning).len(),
    ensures
        ({
            let c = known_conversions(setting, reading, advice, skip_learning)[i];
            c.source == CandidateSource::UserDictionary || c.source == CandidateSource::Learning
        }),
{
    let registered = lemma_known(setting, reading, advice, skip_learning);
    let known = known_conversions(setting, reading, advice, skip_learning);
    if i < registered.len() {
        assert(known[i] == registered[i]);
    } else {
        let hits = dictionary_candidates(setting.user, setting.system, reading, usize::MAX as int);
        let words = only_from(hits, CandidateSource::UserDictionary);
        let learned = all_as_learning(
            learned_candidates(
                setting.learning,
                reading,
                advice.learned_exact,
                advice.learned_prefix,
            ),
            reading,
        );
        candidate::law_adding_keeps_texts_distinct(Seq::empty(), words);
        candidate::law_adding_keeps_texts_distinct(registered, learned);
        assert(learned.contains(known[i]));
    }
}

/// A conversion that skips learning offers nothing that was learned.
pub proof fn law_skipping_learning_shows_nothing_learned(
    setting: Setting,
    reading: Seq<char>,
    advice: AdviceView,
)
    ensures
        none_from(
            conversion_candidates(setting, reading, advice, true),
            0,
            CandidateSource::Learning,
        ),
{
    lemma_all_candidates(setting, reading, advice, true);
    let registered = lemma_known(setting, reading, advice, true);
    let all = all_candidates(setting, reading, advice, true);
    let known = known_conversions(setting, reading, advice, true);
    let shown = conversion_candidates(setting, reading, advice, true);
    assert forall|i: int| 0 <= i < shown.len() implies (#[trigger] shown[i]).source
        != CandidateSource::Learning by {
        assert(shown[i].source == all[i].source);
        if i < known.len() {
            assert(all[i] == known[i]);
        }
    }
}

/// Outside emoji lookup what was typed can always be had as it is and in
/// katakana; in emoji lookup neither is put forward as a plain form.
pub proof fn law_kana_forms_are_offered(
    setting: Setting,
    reading: Seq<char>,
    advice: AdviceView,
    skip_learning: bool,
)
    ensures
        ({
            let shown = conversion_candidates(setting, reading, advice, skip_learning);
            &&& !setting.emoji ==> candidate::has_text(shown, reading) && candidate::has_text(
                shown,
                kana::in_katakana(reading),
            )
            &&& setting.emoji ==> none_from(shown, 0, CandidateSource::Fallback)
        }),
{
    lemma_all_candidates(setting, reading, advice, skip_learning);
    let all = all_candidates(setting, reading, advice, skip_learning);
    let shown = conversion_candidates(setting, reading, advice, skip_learning);
    if !setting.emoji {
        lemma_labels_keep_texts(setting, reading, advice, skip_learning, reading);
        lemma_labels_keep_texts(
            setting,
            reading,
            advice,
            skip_learning,
            kana::in_katakana(reading),
        );
    } else {
        assert forall|i: int| 0 <= i < shown.len() implies (#[trigger] shown[i]).source
            != CandidateSource::Fallback by {
            assert(shown[i].source == all[i].source);
        }
    }
}

proof fn lemma_labels_keep_texts(
    setting: Setting,
    reading: Seq<char>,
    advice: AdviceView,
    skip_learning: bool,
    text: Seq<char>,
)
    requires
        candidate::has_text(all_candidates(setting, reading, advice, skip_learning), text),
    ensures
        candidate::has_text(conversion_candidates(setting, reading, advice, skip_learning), text),
{
    let all = all_candidates(setting, reading, advice, skip_learning);
    let shown = conversion_candidates(setting, reading, advice, skip_learning);
    let i = choose|i: int| 0 <= i < all.len() && (#[trigger] all[i]).text == text;
    assert(shown[i].text == text);
}

/// Nothing that the model or the rewriters have to say is lost.
pub proof fn law_no_conversion_is_lost(
    setting: Setting,
    reading: Seq<char>,
    advice: AdviceView,
    skip_learning: bool,
)
    ensures
        ({
            let shown = conversion_candidates(setting, reading, advice, skip_learning);
            &&& forall|i: int|
                0 <= i < advice.model.len() ==> candidate::has_text(
                    shown,
                    #[trigger] advice.model[i],
                )
            &&& forall|i: int|
                0 <= i < advice.rewrites.len() ==> candidate::has_text(
                    shown,
                    (#[trigger] advice.rewrites[i]).text,
                )
        }),
{
    lemma_all_candidates(setting, reading, advice, skip_learning);
    let shown = conversion_candidates(setting, reading, advice, skip_learning);
    assert forall|i: int| 0 <= i < advice.model.len() implies candidate::has_text(
        shown,
        #[trigger] advice.model[i],
    ) by {
        lemma_labels_keep_texts(setting, reading, advice, skip_learning, advice.model[i]);
    }
    assert forall|i: int| 0 <= i < advice.rewrites.len() implies candidate::has_text(
        shown,
        (#[trigger] advice.rewrites[i]).text,
    ) by {
        lemma_labels_keep_texts(setting, reading, advice, skip_learning, advice.rewrites[i].text);
    }
}

/// What was on display before a clause's list was opened stays selected.
pub proof fn law_preferred_text_is_selected(
    setting: Setting,
    reading: Seq<char>,
    text: Seq<char>,
    skip_learning: bool,
    advice: AdviceView,
)
    requires
        text.len() > 0,
        text != reading || !setting.emoji,
    ensures
        ({
            let list = clause_candidates(setting, reading, Some(text), skip_learning, advice);
            candidate::selected(list) matches Some(c) && c.text == text
        }),
{
    let list = conversion_candidates(setting, reading, advice, skip_learning);
    lemma_position_of(list, text, 0);
    law_kana_forms_are_offered(setting, reading, advice, skip_learning);
    let shown = promoted(list, Some(text), reading);
    assert(shown.len() > 0 && shown[0].text == text);
}

proof fn lemma_position_of(list: Seq<AnnotatedView>, text: Seq<char>, from: int)
    requires
        0 <= from <= list.len(),
    ensures
        match position_of(list, text, from) {
            Some(i) => from <= i < list.len() && list[i].text == text,
            None => forall|i: int| from <= i < list.len() ==> (#[trigger] list[i]).text != text,
        },
    decreases list.len() - from,
{
    if from < list.len() && list[from].text != text {
        lemma_position_of(list, text, from + 1);
    }
}

/// A learned candidate is for the reading itself, or a short prediction.
pub open spec fn fitting(reading: Seq<char>, c: CandidateView) -> bool {
    &&& c.source == Some(CandidateSource::Learning)
    &&& c.reading matches Some(own) && (own == reading || own.len()
        <= MAX_LEARNING_PREFIX_READING_CHARS && c.text.len() <= MAX_LEARNING_PREFIX_SURFACE_CHARS)
}

/// What holds of a list of learned candidates.
pub open spec fn sparing(reading: Seq<char>, list: Seq<CandidateView>) -> bool {
    &&& list.len() <= MAX_LEARNING_CANDIDATES
    &&& forall|i: int| 0 <= i < list.len() ==> fitting(reading, #[trigger] list[i])
    &&& forall|i: int, j: int|
        0 <= i < j < list.len() ==> (#[trigger] list[i]).text != (#[trigger] list[j]).text
}

proof fn lemma_learned_stays_sparing(
    reading: Seq<char>,
    list: Seq<CandidateView>,
    surface: Seq<char>,
    own: Seq<char>,
)
    requires
        sparing(reading, list),
        fitting(reading, learned(surface, own)),
    ensures
        sparing(reading, with_learned(list, surface, own)),
{
    let after = with_learned(list, surface, own);
    if after != list {
        assert forall|i: int, j: int| 0 <= i < j < after.len() implies (#[trigger] after[i]).text
            != (#[trigger] after[j]).text by {
            if j < list.len() {
                assert(list[i].text != list[j].text);
            } else {
                assert(list[i].text != surface);
            }
        }
    }
}

proof fn lemma_exact_stays_sparing(
    reading: Seq<char>,
    list: Seq<CandidateView>,
    surfaces: Seq<Seq<char>>,
)
    requires
        sparing(reading, list),
    ensures
        sparing(reading, with_exact(list, reading, surfaces)),
    decreases surfaces.len(),
{
    if surfaces.len() > 0 {
        lemma_exact_stays_sparing(reading, list, surfaces.drop_last());
        lemma_learned_stays_sparing(
            reading,
            with_exact(list, reading, surfaces.drop_last()),
            surfaces.last(),
            reading,
        );
    }
}

proof fn lemma_predictions_stay_sparing(
    reading: Seq<char>,
    list: Seq<CandidateView>,
    entries: Seq<LearnedView>,
)
    requires
        sparing(reading, list),
    ensures
        sparing(reading, with_predictions(list, reading, entries)),
    decreases entries.len(),
{
    if entries.len() > 0 {
        lemma_predictions_stay_sparing(reading, list, entries.drop_last());
        if predicts(reading, entries.last()) {
            lemma_learned_stays_sparing(
                reading,
                with_predictions(list, reading, entries.drop_last()),
                entries.last().surface,
                entries.last().reading,
            );
        }
    }
}

/// The history never takes the list over: it offers few candidates, none
/// twice, and predicts nothing long.
pub proof fn law_learned_candidates_are_few_and_short(
    enabled: bool,
    reading: Seq<char>,
    exact: Seq<Seq<char>>,
    prefix: Seq<LearnedView>,
)
    ensures
        sparing(reading, learned_candidates(enabled, reading, exact, prefix)),
{
    lemma_exact_stays_sparing(reading, Seq::empty(), exact);
    lemma_predictions_stay_sparing(reading, with_exact(Seq::empty(), reading, exact), prefix);
}

proof fn lemma_hits_stay_distinct(
    list: Seq<AnnotatedView>,
    surfaces: Seq<SurfaceView>,
    source: CandidateSource,
    limit: int,
)
    requires
        candidate::distinct_texts(list),
        list.len() <= limit,
    ensures
        candidate::distinct_texts(with_hits(list, surfaces, source, limit)),
        with_hits(list, surfaces, source, limit).len() <= limit,
    decreases surfaces.len(),
{
    if surfaces.len() > 0 {
        lemma_hits_stay_distinct(list, surfaces.drop_last(), source, limit);
        let before = with_hits(list, surfaces.drop_last(), source, limit);
        let c = candidate::plain(surfaces.last().surface, source);
        lemma_added_is_one(before, c);
        candidate::law_adding_keeps_texts_distinct(before, seq![c]);
    }
}

/// The dictionaries offer no text twice, and no more than they are asked for.
pub proof fn law_dictionary_hits_are_distinct(
    user: Option<Seq<EntryView>>,
    system: Option<Seq<EntryView>>,
    reading: Seq<char>,
    limit: int,
)
    requires
        limit >= 0,
    ensures
        candidate::distinct_texts(dictionary_candidates(user, system, reading, limit)),
        dictionary_candidates(user, system, reading, limit).len() <= limit,
{
    let registered = with_hits(
        Seq::empty(),
        known_surfaces(user, reading),
        CandidateSource::UserDictionary,
        limit,
    );
    lemma_hits_stay_distinct(
        Seq::empty(),
        known_surfaces(user, reading),
        CandidateSource::UserDictionary,
        limit,
    );
    lemma_hits_stay_distinct(
        registered,
        by_score(known_surfaces(system, reading)),
        CandidateSource::Dictionary,
        limit,
    );
}

/// The rank of a source: a lower one stands further up the list.
pub open spec fn rank(source: CandidateSource) -> int {
    match source {
        CandidateSource::UserDictionary => 0,
        CandidateSource::Learning => 1,
        CandidateSource::Model => 2,
        CandidateSource::Dictionary => 3,
        CandidateSource::Fallback => 4,
        CandidateSource::Rewriter => 5,
    }
}

/// A list in the order of the ranks, none above `most`.
pub open spec fn ranked(list: Seq<AnnotatedView>, most: int) -> bool {
    &&& forall|i: int, j: int|
        0 <= i < j < list.len() ==> rank((#[trigger] list[i]).source) <= rank(
            (#[trigger] list[j]).source,
        )
    &&& forall|i: int| 0 <= i < list.len() ==> rank((#[trigger] list[i]).source) <= most
}

proof fn lemma_adding_keeps_ranks(
    list: Seq<AnnotatedView>,
    more: Seq<AnnotatedView>,
    most: int,
    next: int,
)
    requires
        candidate::distinct_texts(list),
        ranked(list, most),
        most <= next,
        forall|i: int| 0 <= i < more.len() ==> rank((#[trigger] more[i]).source) == next,
    ensures
        candidate::distinct_texts(candidate::added_all(list, more)),
        ranked(candidate::added_all(list, more), next),
{
    candidate::law_adding_keeps_texts_distinct(list, more);
    let all = candidate::added_all(list, more);
    assert forall|i: int| 0 <= i < all.len() implies rank((#[trigger] all[i]).source) <= next && (i
        >= list.len() ==> rank(all[i].source) == next) && (i < list.len() ==> all[i]
        == list[i]) by {
        if i >= list.len() {
            assert(more.contains(all[i]));
            let k = choose|k: int| 0 <= k < more.len() && more[k] == all[i];
            assert(rank(more[k].source) == next);
        } else {
            assert(all[i] == list[i]);
        }
    }
    assert forall|i: int, j: int| 0 <= i < j < all.len() implies rank((#[trigger] all[i]).source)
        <= rank((#[trigger] all[j]).source) by {
        if j < list.len() {
            assert(rank(list[i].source) <= rank(list[j].source));
        }
    }
}

/// The candidates stand in the order of their sources: registered words,
/// learned conversions, the model, the system dictionary, plain kana,
/// variants.
pub proof fn law_sources_are_in_order(
    setting: Setting,
    reading: Seq<char>,
    advice: AdviceView,
    skip_learning: bool,
    i: int,
    j: int,
)
    requires
        0 <= i < j < conversion_candidates(setting, reading, advice, skip_learning).len(),
    ensures
        rank(conversion_candidates(setting, reading, advice, skip_learning)[i].source) <= rank(
            conversion_candidates(setting, reading, advice, skip_learning)[j].source,
        ),
{
    lemma_all_ranked(setting, reading, advice, skip_learning);
    let all = all_candidates(setting, reading, advice, skip_learning);
    assert(rank(all[i].source) <= rank(all[j].source));
}

proof fn lemma_known_ranked(
    setting: Setting,
    reading: Seq<char>,
    advice: AdviceView,
    skip_learning: bool,
)
    ensures
        ranked(known_conversions(setting, reading, advice, skip_learning), 1),
        candidate::distinct_texts(known_conversions(setting, reading, advice, skip_learning)),
{
    let known = known_conversions(setting, reading, advice, skip_learning);
    let registered = lemma_known(setting, reading, advice, skip_learning);
    assert forall|k: int| 0 <= k < known.len() implies rank((#[trigger] known[k]).source) <= 1 by {
        lemma_known_sources(setting, reading, advice, skip_learning, k);
    }
    assert forall|k: int, l: int| 0 <= k < l < known.len() implies rank(
        (#[trigger] known[k]).source,
    ) <= rank((#[trigger] known[l]).source) by {
        lemma_known_sources(setting, reading, advice, skip_learning, k);
        lemma_known_sources(setting, reading, advice, skip_learning, l);
        if l < registered.len() {
            assert(known[l] == registered[l] && known[k] == registered[k]);
        }
    }
}

proof fn lemma_all_ranked(
    setting: Setting,
    reading: Seq<char>,
    advice: AdviceView,
    skip_learning: bool,
)
    ensures
        ranked(all_candidates(setting, reading, advice, skip_learning), 5),
{
    let known = known_conversions(setting, reading, advice, skip_learning);
    let hits = dictionary_candidates(setting.user, setting.system, reading, usize::MAX as int);
    lemma_known_ranked(setting, reading, advice, skip_learning);
    let l2 = with_model(setting, reading, advice, skip_learning);
    lemma_adding_keeps_ranks(known, all_as_model(advice.model), 1, 2);
    assert(ranked(l2, 2));
    let listed = only_from(hits, CandidateSource::Dictionary);
    lemma_only_from(hits, CandidateSource::Dictionary);
    lemma_adding_keeps_ranks(l2, listed, 2, 3);
    let l3 = candidate::added_all(l2, listed);
    let typed = candidate::plain(reading, CandidateSource::Fallback);
    let katakana = candidate::plain(kana::in_katakana(reading), CandidateSource::Fallback);
    let l4 = if setting.emoji {
        l3
    } else {
        candidate::added(candidate::added(l3, typed), katakana)
    };
    if !setting.emoji {
        let one = candidate::added(l3, typed);
        lemma_added_is_one(l3, typed);
        lemma_adding_keeps_ranks(l3, seq![typed], 3, 4);
        lemma_added_is_one(one, katakana);
        lemma_adding_keeps_ranks(one, seq![katakana], 4, 4);
    }
    assert(ranked(l4, 4));
    lemma_adding_keeps_ranks(l4, all_as_rewrites(advice.rewrites), 4, 5);
}

proof fn lemma_placed_sorted(sorted: Seq<SurfaceView>, c: SurfaceView)
    requires
        forall|i: int, j: int|
            0 <= i < j < sorted.len() ==> (#[trigger] sorted[i]).score <= (
            #[trigger] sorted[j]).score,
    ensures
        placed(sorted, c).to_multiset() == sorted.to_multiset().insert(c),
        placed(sorted, c).len() == sorted.len() + 1,
        forall|i: int, j: int|
            0 <= i < j < placed(sorted, c).len() ==> (#[trigger] placed(sorted, c)[i]).score <= (
            #[trigger] placed(sorted, c)[j]).score,
        sorted.len() > 0 ==> forall|i: int|
            0 <= i < placed(sorted, c).len() ==> (#[trigger] placed(sorted, c)[i]).score
                <= sorted.last().score || placed(sorted, c)[i] == c,
    decreases sorted.len(),
{
    broadcast use vstd::seq_lib::group_to_multiset_ensures;

    let after = placed(sorted, c);
    if sorted.len() == 0 || sorted.last().score <= c.score {
        assert forall|i: int| 0 <= i < after.len() && sorted.len() > 0 implies (
        #[trigger] after[i]).score <= sorted.last().score || after[i] == c by {
            if i < sorted.len() - 1 {
                assert(sorted[i].score <= sorted[sorted.len() - 1].score);
            }
        }
        assert forall|i: int, j: int| 0 <= i < j < after.len() implies (#[trigger] after[i]).score
            <= (#[trigger] after[j]).score by {
            if j < sorted.len() {
                assert(sorted[i].score <= sorted[j].score);
            } else if i < sorted.len() - 1 {
                assert(sorted[i].score <= sorted[sorted.len() - 1].score);
            }
        }
    } else {
        let front = sorted.drop_last();
        let inner = placed(front, c);
        assert forall|i: int, j: int| 0 <= i < j < front.len() implies (#[trigger] front[i]).score
            <= (#[trigger] front[j]).score by {
            assert(sorted[i].score <= sorted[j].score);
        }
        lemma_placed_sorted(front, c);
        assert(front.push(sorted.last()) =~= sorted);
        assert(after == inner.push(sorted.last()));
        assert(after.to_multiset() =~= sorted.to_multiset().insert(c));
        assert forall|i: int| 0 <= i < inner.len() implies (#[trigger] inner[i]).score
            <= sorted.last().score by {
            if front.len() > 0 {
                assert(sorted[front.len() - 1].score <= sorted[sorted.len() - 1].score);
            } else {
                assert(front.to_multiset().insert(c).count(inner[i]) > 0) by {
                    assert(inner.contains(inner[i]));
                }
            }
        }
        assert forall|i: int, j: int| 0 <= i < j < after.len() implies (#[trigger] after[i]).score
            <= (#[trigger] after[j]).score by {
            if j < inner.len() {
                assert(inner[i].score <= inner[j].score);
            }
        }
    }
}

/// The system dictionary is offered by score, and nothing of it is lost.
pub proof fn law_scores_are_ascending(surfaces: Seq<SurfaceView>)
    ensures
        by_score(surfaces).to_multiset() == surfaces.to_multiset(),
        forall|i: int, j: int|
            0 <= i < j < by_score(surfaces).len() ==> (#[trigger] by_score(surfaces)[i]).score <= (
            #[trigger] by_score(surfaces)[j]).score,
    decreases surfaces.len(),
{
    broadcast use vstd::seq_lib::group_to_multiset_ensures;

    if surfaces.len() > 0 {
        law_scores_are_ascending(surfaces.drop_last());
        lemma_placed_sorted(by_score(surfaces.drop_last()), surfaces.last());
        assert(surfaces.drop_last().push(surfaces.last()) =~= surfaces);
    } else {
        assert(by_score(surfaces) =~= surfaces);
    }
}

} // verus!
