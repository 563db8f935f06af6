//! What the models are asked and what is made of their conversions.

use vstd::prelude::*;
use crate::candidate;
use crate::engine::EngineView;
use crate::kana;
use crate::kana_laws;
use crate::model::{ConversionStrategy, ReplyView};
use crate::model;

verus! {

/// A text holds kana.
pub open spec fn holds_kana(text: Seq<char>) -> bool {
    exists|i: int|
        0 <= i < text.len() && (kana_laws::in_hiragana_block(#[trigger] text[i])
            || kana_laws::in_katakana_block(text[i]))
}

proof fn lemma_holds_kana(text: Seq<char>)
    ensures
        kana::any_char(text, |c: char| kana::kana(c)) <==> holds_kana(text),
{
    let p = |c: char| kana::kana(c);
    if kana::any_char(text, p) {
        let i = choose|i: int| 0 <= i < text.len() && p(#[trigger] text[i]);
        assert(kana_laws::in_hiragana_block(text[i]) || kana_laws::in_katakana_block(text[i]));
    }
    if holds_kana(text) {
        let i = choose|i: int|
            0 <= i < text.len() && (kana_laws::in_hiragana_block(#[trigger] text[i])
                || kana_laws::in_katakana_block(text[i]));
        assert(p(text[i]));
    }
}

/// What the models are asked for a number of conversions: nothing without the
/// main model or without kana; else the reading in katakana behind the
/// context. The main model gives one conversion where one is wanted or where
/// the light one gives the others, else it gives them all.
pub proof fn law_what_models_are_asked(
    e: EngineView,
    reading: Seq<char>,
    context: Seq<char>,
    wanted: usize,
)
    ensures
        match model::model_query(e, reading, context, model::strategy_for(e, wanted)) {
            None => e.kanji is None || !holds_kana(reading),
            Some(query) => {
                &&& e.kanji is Some && holds_kana(reading)
                &&& query.katakana == kana::in_katakana(reading)
                &&& query.context == context
                &&& wanted <= 1 ==> query.main == Some(1usize) && query.light is None
                &&& wanted > 1 && e.light_kanji is Some ==> query.main == Some(1usize)
                    && query.light == Some(wanted)
                &&& wanted > 1 && e.light_kanji is None ==> query.main == Some(wanted)
                    && query.light is None
            },
        },
{
    lemma_holds_kana(reading);
}

/// What a strategy asks of the models: nothing of one that is not loaded, and
/// no more conversions than the strategy is for.
pub proof fn law_what_a_strategy_asks(
    e: EngineView,
    reading: Seq<char>,
    context: Seq<char>,
    strategy: ConversionStrategy,
)
    ensures
        match model::model_query(e, reading, context, strategy) {
            None => e.kanji is None || !holds_kana(reading) || e.light_kanji is None && (
            strategy is LightModelOnly || strategy is ParallelBeam),
            Some(query) => {
                &&& e.kanji is Some && holds_kana(reading)
                &&& query.katakana == kana::in_katakana(reading)
                &&& query.context == context
                &&& query.light is Some ==> e.light_kanji is Some
                &&& match strategy {
                    ConversionStrategy::LightModelOnly => query.main is None && query.light == Some(
                        1usize,
                    ),
                    ConversionStrategy::MainModelOnly => query.main == Some(1usize)
                        && query.light is None,
                    ConversionStrategy::MainModelBeam { beam_width } => query.main == Some(
                        beam_width,
                    ) && query.light is None,
                    ConversionStrategy::ParallelBeam { beam_width } => query.main == Some(1usize)
                        && query.light == Some(beam_width),
                }
            },
        },
{
    lemma_holds_kana(reading);
}

/// A text does not occur earlier.
pub open spec fn occurs_first(texts: Seq<Seq<char>>, i: int) -> bool {
    0 <= i < texts.len() && forall|k: int| 0 <= k < i ==> #[trigger] texts[k] != texts[i]
}

/// Texts are picked out of others: each where it first occurs, in order, from
/// the beginning on, and none left out but where there are enough.
pub open spec fn picked(
    texts: Seq<Seq<char>>,
    places: Seq<int>,
    enough: int,
    out: Seq<Seq<char>>,
) -> bool {
    &&& places.len() == out.len()
    &&& out.len() <= enough
    &&& forall|i: int|
        0 <= i < out.len() ==> occurs_first(texts, #[trigger] places[i]) && out[i]
            == texts[places[i]]
    &&& forall|i: int, j: int|
        0 <= i < j < places.len() ==> #[trigger] places[i] < #[trigger] places[j]
    &&& forall|k: int|
        #[trigger] occurs_first(texts, k) && !places.contains(k) ==> out.len() == enough && forall|
            i: int,
        |
            0 <= i < places.len() ==> #[trigger] places[i] < k
}

proof fn lemma_first_occurrences(texts: Seq<Seq<char>>) -> (places: Seq<int>)
    ensures
        places.len() == candidate::first_occurrences(texts).len(),
        places.len() <= texts.len(),
        forall|i: int|
            0 <= i < places.len() ==> occurs_first(texts, #[trigger] places[i])
                && candidate::first_occurrences(texts)[i] == texts[places[i]],
        forall|i: int, j: int|
            0 <= i < j < places.len() ==> #[trigger] places[i] < #[trigger] places[j],
        forall|k: int| #[trigger] occurs_first(texts, k) ==> places.contains(k),
    decreases texts.len(),
{
    if texts.len() == 0 {
        Seq::empty()
    } else {
        let front = texts.drop_last();
        let last = texts.len() - 1;
        let before = lemma_first_occurrences(front);
        let known = front.contains(texts.last());
        let places = if known {
            before
        } else {
            before.push(last)
        };
        assert(occurs_first(texts, last) <==> !known) by {
            if known {
                let k = choose|k: int| 0 <= k < front.len() && front[k] == texts.last();
                assert(texts[k] == texts[last]);
            } else {
                assert forall|k: int| 0 <= k < last implies #[trigger] texts[k] != texts[last] by {
                    assert(front[k] == texts[k]);
                }
            }
        }
        assert forall|k: int| 0 <= k < last implies (#[trigger] occurs_first(texts, k)
            <==> occurs_first(front, k)) by {
            if occurs_first(texts, k) {
                assert forall|j: int| 0 <= j < k implies #[trigger] front[j] != front[k] by {
                    assert(texts[j] != texts[k]);
                }
            }
            if occurs_first(front, k) {
                assert forall|j: int| 0 <= j < k implies #[trigger] texts[j] != texts[k] by {
                    assert(front[j] != front[k]);
                }
            }
        }
        assert forall|i: int| 0 <= i < places.len() implies occurs_first(
            texts,
            #[trigger] places[i],
        ) && candidate::first_occurrences(texts)[i] == texts[places[i]] by {
            if i < before.len() {
                assert(places[i] == before[i]);
                assert(occurs_first(front, before[i]));
                assert(occurs_first(texts, before[i]));
                assert(front[before[i]] == texts[before[i]]);
            }
        }
        assert forall|i: int, j: int| 0 <= i < j < places.len() implies #[trigger] places[i]
            < #[trigger] places[j] by {
            assert(places[i] == before[i]);
            assert(occurs_first(front, before[i]));
            if j < before.len() {
                assert(places[j] == before[j]);
            }
        }
        assert forall|k: int| #[trigger] occurs_first(texts, k) implies places.contains(k) by {
            if k < last {
                assert(occurs_first(front, k));
                let i = choose|i: int| 0 <= i < before.len() && before[i] == k;
                assert(places[i] == k);
            } else {
                assert(places[before.len() as int] == last);
            }
        }
        places
    }
}

/// Merging two lists gives the texts of the first and then those of the second
/// in their order, none twice, as far as there is room.
pub proof fn law_merging_conversions(
    first: Seq<Seq<char>>,
    second: Seq<Seq<char>>,
    room: usize,
)
    ensures
        exists|places: Seq<int>|
            #[trigger] picked(
                first + second,
                places,
                room as int,
                candidate::at_most(candidate::first_occurrences(first + second), room as int),
            ),
{
    let texts = first + second;
    let all = candidate::first_occurrences(texts);
    let every = lemma_first_occurrences(texts);
    let out = candidate::at_most(all, room as int);
    let places = every.take(out.len() as int);
    assert forall|k: int| #[trigger] occurs_first(texts, k) && !places.contains(k) implies out.len()
        == room && forall|i: int| 0 <= i < places.len() ==> #[trigger] places[i] < k by {
        let at = choose|at: int| 0 <= at < every.len() && every[at] == k;
        if at < out.len() {
            assert(places[at] == k);
        }
    }
    assert(picked(texts, places, room as int, out));
}

/// What is made of the conversions of the models: the best of the main one and
/// then those of the light one, none twice and no more than wanted, where both
/// ran; else those of the one that ran.
pub proof fn law_what_models_give(strategy: ConversionStrategy, reply: ReplyView)
    ensures
        match strategy {
            ConversionStrategy::ParallelBeam { beam_width } => exists|places: Seq<int>|
                #[trigger] picked(
                    reply.main + reply.light,
                    places,
                    beam_width as int,
                    model::model_conversions(strategy, reply),
                ),
            ConversionStrategy::LightModelOnly => model::model_conversions(strategy, reply)
                == reply.light,
            ConversionStrategy::MainModelOnly => model::model_conversions(strategy, reply)
                == reply.main,
            ConversionStrategy::MainModelBeam { .. } => model::model_conversions(strategy, reply)
                == reply.main,
        },
{
    if let ConversionStrategy::ParallelBeam { beam_width } = strategy {
        law_merging_conversions(reply.main, reply.light, beam_width);
        let texts = reply.main + reply.light;
        let out = candidate::at_most(candidate::first_occurrences(texts), beam_width as int);
        let places = choose|places: Seq<int>|
            #[trigger] picked(texts, places, beam_width as int, out);
        assert(picked(
            texts,
            places,
            beam_width as int,
            model::model_conversions(strategy, reply),
        ));
    }
}

/// After the models ran it is noted which ones and for how long, and nothing
/// else changes.
pub proof fn law_what_is_noted_of_models(
    e: EngineView,
    strategy: ConversionStrategy,
    reply: ReplyView,
)
    ensures
        ({
            let after = model::after_models(e, strategy, reply);
            &&& after == EngineView { metrics: after.metrics, ..e }
            &&& after.metrics.conversion_ms == reply.elapsed_ms
            &&& after.metrics.process_key_ms == e.metrics.process_key_ms
            &&& e.kanji is Some && (strategy is MainModelOnly || strategy is MainModelBeam)
                ==> after.metrics.model_name == e.kanji->0
            &&& e.light_kanji is Some && strategy is LightModelOnly ==> after.metrics.model_name
                == e.light_kanji->0
            &&& e.kanji is Some && e.light_kanji is Some && strategy is ParallelBeam
                ==> after.metrics.model_name == e.kanji->0 + seq!['+'] + e.light_kanji->0
        }),
{
}

} // verus!
