//! How an engine is got ready: its dictionaries, its models, its history, and
//! what is loaded in the background.

use vstd::prelude::*;
use crate::advice::LearnedView;
use crate::clause_laws;
use crate::dictionary::EntryView;
use crate::dictionary_update::BackgroundDictionaryUpdate;
use crate::dictionary_update;
use crate::engine::{EngineView, InputMode};
use crate::engine;
use crate::init::{
    DictionaryFileView, FoundView, LoadErrorView, LoadsView, ModelError, ModelOutcomeView,
    ModelsView, RequestView, ResourcePollView, UpdatePoll,
};
use crate::init;
use crate::settings::{EngineConfig, LearningConfig, SettingsView, StrategyMode};
use crate::settings;
use crate::state::StateView;

verus! {

/// An engine begins with nothing loaded and nothing typed, in hiragana, and
/// converts while typing where its configuration says so.
pub proof fn law_a_new_engine(config: EngineConfig)
    ensures
        ({
            let e = engine::fresh_engine(config);
            &&& e.config == config
            &&& e.state == StateView::Empty
            &&& e.mode.current == InputMode::Hiragana && e.mode.saved is None
            &&& e.text.len() == 0 && e.cursor == 0 && e.romaji.len() == 0
            &&& e.live_text.len() == 0 && e.chunks.len() == 0 && e.recorded.len() == 0
            &&& e.live_enabled == config.live_conversion
            &&& e.user is None && e.system is None && e.learning is None
            &&& e.kanji is None && e.light_kanji is None && e.context is None
            &&& !e.loading && !e.updating
        }),
{
}

/// Without settings text is cut into pieces of forty characters while typing,
/// nine candidates are asked of the model, it sees twenty characters of
/// context, and conversion while typing is on.
pub proof fn law_the_configuration_without_settings()
    ensures
        settings::default_config().composing_chunk_len == 40,
        settings::default_config().num_candidates == 9,
        settings::default_config().max_api_context_len == 20,
        settings::default_config().live_conversion,
{
}

/// The model sees the end of the text on the left, as much of it as it may.
pub proof fn law_what_the_model_sees(e: EngineView, text: Seq<char>)
    ensures
        clause_laws::visible_end(
            text,
            e.config.max_api_context_len as int,
            engine::tail_of(text, e.config.max_api_context_len as int),
        ),
        match e.context {
            Some(around) => match around.left {
                Some(left) => clause_laws::visible_end(
                    left,
                    e.config.max_api_context_len as int,
                    engine::model_context(e),
                ),
                None => engine::model_context(e).len() == 0,
            },
            None => engine::model_context(e).len() == 0,
        },
{
    let limit = e.config.max_api_context_len as int;
    let end = engine::tail_of(text, limit);
    assert(end =~= text.skip(text.len() - end.len()));
    let left = engine::left_of(e);
    let seen = engine::tail_of(left, limit);
    assert(seen =~= left.skip(left.len() - seen.len()));
}

/// A conversion is noted behind those noted before, where there is a history;
/// else nothing changes.
pub proof fn law_noting_a_conversion(e: EngineView, reading: Seq<char>, surface: Seq<char>)
    ensures
        ({
            let after = engine::recorded_one(e, reading, surface);
            &&& after == EngineView { recorded: after.recorded, ..e }
            &&& e.learning is None ==> after.recorded == e.recorded
            &&& e.learning is Some ==> {
                &&& after.recorded.len() == e.recorded.len() + 1
                &&& forall|k: int|
                    0 <= k < e.recorded.len() ==> #[trigger] after.recorded[k] == e.recorded[k]
                &&& after.recorded[e.recorded.len() as int] == (LearnedView { reading, surface })
            }
        }),
{
}

/// The path of the dictionary in a directory.
pub open spec fn beside(dir: Seq<char>, path: Seq<char>) -> bool {
    if dir.len() == 0 {
        path == "dict.bin"@
    } else if dir[dir.len() - 1] == '/' {
        path == dir + "dict.bin"@
    } else {
        path == dir + seq!['/'] + "dict.bin"@
    }
}

/// The system dictionary is looked for where the settings say, else in the
/// data directory, and taken over where one was found there; one that is in
/// use stays, and without one the engine goes on.
pub proof fn law_looking_for_the_system_dictionary(
    e: EngineView,
    dict_path: Option<Seq<char>>,
    data_dir: Option<Seq<char>>,
    found: Option<DictionaryFileView>,
)
    ensures
        ({
            let (after, asked) = init::with_system(e, dict_path, data_dir, found);
            let known = dict_path is Some || data_dir is Some;
            &&& after == EngineView { system: after.system, ..e }
            &&& e.system is Some || !known ==> after == e && asked is None
            &&& e.system is None && known && found is None ==> {
                &&& after == e
                &&& asked is Some
                &&& dict_path is Some ==> asked == dict_path
                &&& dict_path is None ==> beside(data_dir->0, asked->0)
            }
            &&& e.system is None && known && found is Some ==> asked is None
                && match found->0 {
                DictionaryFileView::Loaded(dictionary) => after.system == Some(dictionary),
                _ => after.system is None,
            }
        }),
{
    if dict_path is None && data_dir is Some {
        let dir = data_dir->0;
        if dir.len() > 0 && dir[dir.len() - 1] != '/' {
            assert(dir.push('/') =~= dir + seq!['/']);
        }
    }
}

/// Getting an engine ready takes over what was found and wanted, unless the
/// engine has it, and leaves alone what is typed, the models and the
/// configuration.
pub proof fn law_what_an_engine_takes_over(e: EngineView, s: SettingsView, found: FoundView)
    ensures
        ({
            let after = init::with_resources(e, s, found);
            &&& after == EngineView {
                system: after.system,
                user: after.user,
                learning: after.learning,
                updating: after.updating,
                ..e
            }
            &&& after.updating == found.updating
            &&& after.user == if e.user is Some {
                e.user
            } else {
                found.user
            }
            &&& after.learning == if e.learning is Some || !s.learning {
                e.learning
            } else {
                Some(s.learning_limits)
            }
            &&& after.system == if e.system is None && (s.dict_path is Some
                || found.data_dir is Some) && found.system is Some && found.system->0 is Loaded {
                Some(found.system->0->Loaded_0)
            } else {
                e.system
            }
        }),
{
}

/// New models take the place of the old ones, and what was converted without
/// them is not used again.
pub proof fn law_new_models(e: EngineView, models: ModelsView)
    ensures
        ({
            let after = init::with_models(e, models);
            &&& after.kanji == models.kanji && after.light_kanji == models.light_kanji
            &&& after.chunks.len() == 0
            &&& after == EngineView {
                kanji: after.kanji,
                light_kanji: after.light_kanji,
                chunks: after.chunks,
                ..e
            }
        }),
{
}

/// A model that is to be loaded, with as many threads as the settings say, or
/// as many as it likes where they say none.
pub open spec fn asks_for(request: RequestView, id: Seq<char>, s: SettingsView) -> bool {
    &&& request.variant_id == id
    &&& s.n_threads > 0 ==> request.n_threads == Some(s.n_threads)
    &&& s.n_threads == 0 ==> request.n_threads is None
}

/// Where only the light model is wanted it is the one and only model: it has
/// to be known and loaded.
pub proof fn law_models_where_the_light_one_is_wanted(s: SettingsView, loads: LoadsView)
    requires
        s.strategy == StrategyMode::Light,
    ensures
        ({
            let named = loads.light is Some && loads.light->0.setting == s.light_model;
            let r = init::models_of(s, loads);
            &&& !named ==> r == Err::<ModelsView, _>(LoadErrorView::ResolveLight(s.light_model))
            &&& named && loads.light->0.id is None ==> r == Err::<ModelsView, _>(
                LoadErrorView::InvalidLightModel,
            )
            &&& named && loads.light->0.id is Some ==> match loads.light_outcome {
                ModelOutcomeView::Loaded(name) => r matches Ok(models) && models.kanji == Some(name)
                    && models.light_kanji is None,
                ModelOutcomeView::Failed(reason) => r == Err::<ModelsView, _>(
                    LoadErrorView::LightModel(reason),
                ),
                ModelOutcomeView::Unknown => r matches Err(LoadErrorView::LoadLight(request))
                    && asks_for(request, loads.light->0.id->0, s),
            }
        }),
{
}

/// Else the main model has to be known and loaded. Where both are wanted the
/// light one is loaded beside it, the default one in place of a name that is
/// not known, and may fail.
pub proof fn law_models_where_the_main_one_is_wanted(s: SettingsView, loads: LoadsView)
    requires
        s.strategy != StrategyMode::Light,
    ensures
        ({
            let named = loads.main is Some && loads.main->0.setting == s.model;
            let light_named = loads.light is Some && loads.light->0.setting == s.light_model;
            let r = init::models_of(s, loads);
            &&& !named ==> r == Err::<ModelsView, _>(LoadErrorView::ResolveMain(s.model))
            &&& named && loads.main->0.id is None ==> r == Err::<ModelsView, _>(
                LoadErrorView::InvalidModel,
            )
            &&& named && loads.main->0.id is Some ==> match loads.main_outcome {
                ModelOutcomeView::Failed(reason) => r == Err::<ModelsView, _>(
                    LoadErrorView::MainModel(reason),
                ),
                ModelOutcomeView::Unknown => r matches Err(LoadErrorView::LoadMain(request))
                    && asks_for(request, loads.main->0.id->0, s),
                ModelOutcomeView::Loaded(name) => {
                    &&& s.strategy == StrategyMode::Main ==> (r matches Ok(models) && models.kanji
                        == Some(name) && models.light_kanji is None)
                    &&& s.strategy == StrategyMode::Adaptive && !light_named ==> r == Err::<
                        ModelsView,
                        _,
                    >(LoadErrorView::ResolveLight(s.light_model))
                    &&& s.strategy == StrategyMode::Adaptive && light_named
                        ==> match loads.light_outcome {
                        ModelOutcomeView::Loaded(light) => r matches Ok(models) && models.kanji
                            == Some(name) && models.light_kanji == Some(light),
                        ModelOutcomeView::Failed(_) => r matches Ok(models) && models.kanji
                            == Some(name) && models.light_kanji is None,
                        ModelOutcomeView::Unknown => r matches Err(
                            LoadErrorView::LoadLight(request),
                        ) && asks_for(
                            request,
                            if loads.light->0.id is Some {
                                loads.light->0.id->0
                            } else {
                                loads.default_variant
                            },
                            s,
                        ),
                    }
                },
            }
        }),
{
}

/// Dictionaries that could be loaded are kept, all of them and in their order.
pub proof fn law_dictionaries_that_could_be_loaded<D>(loads: Seq<Option<D>>) -> (places: Seq<int>)
    ensures
        places.len() == init::usable(loads).len(),
        forall|i: int|
            0 <= i < places.len() ==> 0 <= #[trigger] places[i] < loads.len() && loads[places[i]]
                == Some(init::usable(loads)[i]),
        forall|i: int, j: int|
            0 <= i < j < places.len() ==> #[trigger] places[i] < #[trigger] places[j],
        forall|k: int|
            0 <= k < loads.len() && (#[trigger] loads[k]) is Some ==> places.contains(k),
    decreases loads.len(),
{
    if loads.len() == 0 {
        Seq::empty()
    } else {
        let before = law_dictionaries_that_could_be_loaded(loads.drop_last());
        let last = loads.len() - 1;
        let places = if loads.last() is Some {
            before.push(last)
        } else {
            before
        };
        assert forall|k: int| 0 <= k < loads.len() && (#[trigger] loads[k]) is Some implies places.contains(
            k,
        ) by {
            if k < last {
                assert(loads.drop_last()[k] is Some);
                let i = choose|i: int| 0 <= i < before.len() && before[i] == k;
                assert(places[i] == k);
            } else {
                assert(places[before.len() as int] == k);
            }
        }
        places
    }
}

/// What was loaded in the background is taken over as a whole, once; where
/// loading failed the engine goes on with what it has, and while it is pending
/// nothing changes.
pub proof fn law_loading_in_the_background(e: EngineView, poll: ResourcePollView)
    ensures
        ({
            let after = init::after_poll(e, poll);
            &&& !e.loading || poll is Pending ==> after == e
            &&& e.loading && !(poll is Pending) ==> !after.loading
            &&& e.loading && (poll is Failed || poll is Disconnected) ==> after == EngineView {
                loading: false,
                ..e
            }
            &&& e.loading ==> (poll matches ResourcePollView::Loaded(loaded) ==> {
                &&& after.kanji == loaded.models.kanji
                &&& after.light_kanji == loaded.models.light_kanji
                &&& after.user == loaded.user
                &&& after.system == loaded.system
                &&& after.learning == loaded.learning
                &&& after.updating == loaded.updating
                &&& after.chunks.len() == 0
                &&& after == EngineView {
                    kanji: after.kanji,
                    light_kanji: after.light_kanji,
                    user: after.user,
                    system: after.system,
                    learning: after.learning,
                    updating: after.updating,
                    chunks: after.chunks,
                    loading: false,
                    ..e
                }
            })
        }),
{
}

/// A check brought a dictionary: it ended well, with an update, and has one.
pub open spec fn brings(result: Result<BackgroundDictionaryUpdate, String>, d: Seq<EntryView>) -> bool {
    result matches Ok(update) && update.outcome is Updated && update.dictionary.deep_view() == Some(
        d,
    )
}

/// The dictionary in use after checks: the one that the last of them that
/// brought one brought, else the one before.
pub proof fn law_checks_in_the_background(
    system: Option<Seq<EntryView>>,
    results: Seq<Result<BackgroundDictionaryUpdate, String>>,
)
    ensures
        ({
            let after = init::after_checks(system, results);
            ||| exists|i: int, d: Seq<EntryView>|
                {
                    &&& 0 <= i < results.len()
                    &&& #[trigger] brings(results[i], d)
                    &&& after == Some(d)
                    &&& forall|j: int, other: Seq<EntryView>|
                        i < j < results.len() ==> !#[trigger] brings(results[j], other)
                }
            ||| {
                &&& after == system
                &&& forall|j: int, other: Seq<EntryView>|
                    0 <= j < results.len() ==> !#[trigger] brings(results[j], other)
            }
        }),
    decreases results.len(),
{
    if results.len() > 0 {
        let last = results.len() - 1;
        let front = results.drop_last();
        assert(results.last() == results[last]);
        match init::brought(results.last()) {
            Some(d) => {
                assert(brings(results[last], d));
            },
            None => {
                law_checks_in_the_background(system, front);
                assert forall|other: Seq<EntryView>| !#[trigger] brings(results[last], other) by {}
                let after = init::after_checks(system, front);
                if exists|i: int, d: Seq<EntryView>|
                    {
                        &&& 0 <= i < front.len()
                        &&& #[trigger] brings(front[i], d)
                        &&& after == Some(d)
                        &&& forall|j: int, other: Seq<EntryView>|
                            i < j < front.len() ==> !#[trigger] brings(front[j], other)
                    } {
                    let (i, d) = choose|i: int, d: Seq<EntryView>|
                        {
                            &&& 0 <= i < front.len()
                            &&& #[trigger] brings(front[i], d)
                            &&& after == Some(d)
                            &&& forall|j: int, other: Seq<EntryView>|
                                i < j < front.len() ==> !#[trigger] brings(front[j], other)
                        };
                    assert(brings(results[i], d));
                    assert forall|j: int, other: Seq<EntryView>|
                        i < j < results.len() implies !#[trigger] brings(results[j], other) by {
                        if j < last {
                            assert(!brings(front[j], other));
                        }
                    }
                } else {
                    assert forall|j: int, other: Seq<EntryView>|
                        0 <= j < results.len() implies !#[trigger] brings(results[j], other) by {
                        if j < last {
                            assert(!brings(front[j], other));
                        }
                    }
                }
            },
        }
    }
}

/// A look at the updates in the background changes at most the dictionary in
/// use, and whether there are any more where they have ended for good.
pub proof fn law_looking_at_updates(e: EngineView, poll: UpdatePoll)
    ensures
        ({
            let after = init::after_update_poll(e, poll);
            &&& !e.updating || poll is Pending ==> after == e
            &&& e.updating && poll is Disconnected ==> after == EngineView {
                updating: false,
                ..e
            }
            &&& e.updating ==> (poll matches UpdatePoll::Ended(results) ==> after == EngineView {
                system: init::after_checks(e.system, results@),
                ..e
            })
        }),
{
}

/// Updates run in the background where they are wanted and not forbidden, and
/// never where the dictionary is the user's own. A check is due after as many
/// hours as the settings say.
pub proof fn law_when_updates_run(s: SettingsView, disabled: bool)
    ensures
        dictionary_update::runs_in_background(s, disabled) <==> s.updates && !disabled
            && s.dict_path is None,
        s.check_interval_hours <= 5_000_000_000_000_000 ==> dictionary_update::interval_of(
            s.check_interval_hours,
        ) == 3600 * s.check_interval_hours,
        dictionary_update::interval_of(s.check_interval_hours) <= u64::MAX,
        s.check_interval_hours == 0 ==> dictionary_update::poll_seconds(s.check_interval_hours)
            == 24 * 3600,
        s.check_interval_hours > 0 ==> dictionary_update::poll_seconds(s.check_interval_hours)
            == 3600,
{
}

/// A history is begun where one is wanted and there is none, with the limits
/// that it is given.
pub proof fn law_beginning_a_history(e: EngineView, wanted: bool, limits: LearningConfig)
    ensures
        ({
            let after = init::with_learning(e, wanted, limits);
            &&& after == EngineView { learning: after.learning, ..e }
            &&& wanted && e.learning is None ==> after.learning == Some(limits)
            &&& !wanted || e.learning is Some ==> after == e
        }),
{
}

/// A model is installed only where there is none: then it is the one that was
/// loaded. Else nothing is, and it is said which model is to be loaded first,
/// or why it could not be.
pub proof fn law_installing_a_model(
    present: Option<Seq<char>>,
    variant_id: Seq<char>,
    n_threads: u32,
    outcome: ModelOutcomeView,
    after: Option<Seq<char>>,
    r: Result<(), ModelError>,
)
    requires
        init::installs_model(present, variant_id, n_threads, outcome, after, r),
    ensures
        present is Some ==> r is Ok && after == present,
        present is None ==> match outcome {
            ModelOutcomeView::Loaded(name) => r is Ok && after == Some(name),
            ModelOutcomeView::Failed(reason) => after is None && (r matches Err(
                ModelError::Failed(text),
            ) && text@ == reason),
            ModelOutcomeView::Unknown => after is None && (r matches Err(
                ModelError::Missing(request),
            ) && request.variant_id@ == variant_id && (n_threads > 0 ==> request.n_threads == Some(
                n_threads,
            )) && (n_threads == 0 ==> request.n_threads is None)),
        },
{
}

} // verus!
