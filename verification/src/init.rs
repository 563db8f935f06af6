//! Getting the engine ready: models, dictionaries and the history.
//!
//! Models and files are loaded outside; what was found is told to the engine,
//! which decides what it makes of it.

use vstd::prelude::*;
use crate::archive::DICTIONARY_NAME;
use crate::archive;
use crate::dictionary::{Dictionary, EntryView};
use crate::dictionary_update::{BackgroundDictionaryUpdate, DictionaryUpdateOutcome};
use crate::engine::{EngineView, InputMethodEngine, ModelHandle};
use crate::settings::{LearningConfig, Settings, SettingsView, StrategyMode};
use crate::text::{chars_of, decimal, joined, same_text, sorted_texts};
use crate::text;

verus! {

/// A model that is to be loaded; without a number of threads it uses as many
/// as it likes.
pub struct ModelRequest {
    pub variant_id: String,
    pub n_threads: Option<u32>,
}

#[verifier::ext_equal]
pub struct RequestView {
    pub variant_id: Seq<char>,
    pub n_threads: Option<u32>,
}

impl DeepView for ModelRequest {
    type V = RequestView;

    open spec fn deep_view(&self) -> RequestView {
        RequestView { variant_id: self.variant_id@, n_threads: self.n_threads }
    }
}

/// The model that settings ask for.
pub open spec fn request_of(variant_id: Seq<char>, n_threads: u32) -> RequestView {
    RequestView {
        variant_id,
        n_threads: if n_threads > 0 {
            Some(n_threads)
        } else {
            None
        },
    }
}

/// Asks for a model.
pub fn create_converter(variant_id: &str, n_threads: u32) -> (r: ModelRequest)
    ensures
        r.deep_view() == request_of(variant_id@, n_threads),
{
    ModelRequest {
        variant_id: variant_id.to_owned(),
        n_threads: if n_threads > 0 {
            Some(n_threads)
        } else {
            None
        },
    }
}

/// A number of threads in words.
pub fn threads_label(n_threads: u32) -> (r: String)
    ensures
        n_threads > 0 ==> r@ == text::decimal_text(n_threads as nat),
        n_threads == 0 ==> r@ == "default"@,
{
    if n_threads > 0 {
        decimal(n_threads as u64)
    } else {
        "default".to_owned()
    }
}

/// What came of loading a model.
pub enum ModelOutcome {
    /// It was not tried yet.
    Unknown,
    Loaded(ModelHandle),
    Failed(String),
}

#[verifier::ext_equal]
pub enum ModelOutcomeView {
    Unknown,
    Loaded(Seq<char>),
    Failed(Seq<char>),
}

impl DeepView for ModelOutcome {
    type V = ModelOutcomeView;

    open spec fn deep_view(&self) -> ModelOutcomeView {
        match *self {
            ModelOutcome::Unknown => ModelOutcomeView::Unknown,
            ModelOutcome::Loaded(model) => ModelOutcomeView::Loaded(model.deep_view()),
            ModelOutcome::Failed(reason) => ModelOutcomeView::Failed(reason@),
        }
    }
}

/// Why a model is not there.
pub enum ModelError {
    /// It has to be loaded first.
    Missing(ModelRequest),
    Failed(String),
}

/// What installing a model comes to: nothing where there is one, else the
/// model that was loaded.
pub open spec fn installs_model(
    present: Option<Seq<char>>,
    variant_id: Seq<char>,
    n_threads: u32,
    outcome: ModelOutcomeView,
    after: Option<Seq<char>>,
    r: Result<(), ModelError>,
) -> bool {
    if present is Some {
        r is Ok && after == present
    } else {
        match outcome {
            ModelOutcomeView::Unknown => after is None && (r matches Err(ModelError::Missing(request))
                && request.deep_view() == request_of(variant_id, n_threads)),
            ModelOutcomeView::Loaded(name) => r is Ok && after == Some(name),
            ModelOutcomeView::Failed(reason) => after is None && (r matches Err(ModelError::Failed(text))
                && text@ == reason),
        }
    }
}

fn install(
    slot: &mut Option<ModelHandle>,
    variant_id: &str,
    n_threads: u32,
    outcome: ModelOutcome,
) -> (r: Result<(), ModelError>)
    ensures
        installs_model(
            old(slot).deep_view(),
            variant_id@,
            n_threads,
            outcome.deep_view(),
            final(slot).deep_view(),
            r,
        ),
{
    if slot.is_some() {
        return Ok(());
    }
    match outcome {
        ModelOutcome::Unknown => Err(
            ModelError::Missing(create_converter(variant_id, n_threads)),
        ),
        ModelOutcome::Loaded(model) => {
            *slot = Some(model);
            Ok(())
        },
        ModelOutcome::Failed(reason) => Err(ModelError::Failed(reason)),
    }
}

impl InputMethodEngine {
    /// Installs the main model, unless there is one. Where it was not loaded
    /// yet, says which one is to be loaded.
    pub fn init_kanji_converter_with_model(
        &mut self,
        variant_id: &str,
        n_threads: u32,
        outcome: ModelOutcome,
    ) -> (r: Result<(), ModelError>)
        ensures
            installs_model(
                old(self).deep_view().kanji,
                variant_id@,
                n_threads,
                outcome.deep_view(),
                final(self).deep_view().kanji,
                r,
            ),
            final(self).deep_view() == (EngineView {
                kanji: final(self).deep_view().kanji,
                ..old(self).deep_view()
            }),
    {
        install(&mut self.converters.kanji, variant_id, n_threads, outcome)
    }

    /// Installs the default model as the main one, unless there is one.
    pub fn init_kanji_converter(&mut self, default_id: &str, outcome: ModelOutcome) -> (r: Result<
        (),
        ModelError,
    >)
        ensures
            installs_model(
                old(self).deep_view().kanji,
                default_id@,
                0,
                outcome.deep_view(),
                final(self).deep_view().kanji,
                r,
            ),
            final(self).deep_view() == (EngineView {
                kanji: final(self).deep_view().kanji,
                ..old(self).deep_view()
            }),
    {
        self.init_kanji_converter_with_model(default_id, 0, outcome)
    }

    /// Installs the light model, unless there is one.
    pub fn init_light_kanji_converter(
        &mut self,
        variant_id: &str,
        n_threads: u32,
        outcome: ModelOutcome,
    ) -> (r: Result<(), ModelError>)
        ensures
            installs_model(
                old(self).deep_view().light_kanji,
                variant_id@,
                n_threads,
                outcome.deep_view(),
                final(self).deep_view().light_kanji,
                r,
            ),
            final(self).deep_view() == (EngineView {
                light_kanji: final(self).deep_view().light_kanji,
                ..old(self).deep_view()
            }),
    {
        install(&mut self.converters.light_kanji, variant_id, n_threads, outcome)
    }
}

/// What a setting names: a model, or none that is known.
pub struct ResolvedVariant {
    pub setting: Option<String>,
    pub id: Option<String>,
}

#[verifier::ext_equal]
pub struct ResolvedView {
    pub setting: Option<Seq<char>>,
    pub id: Option<Seq<char>>,
}

impl DeepView for ResolvedVariant {
    type V = ResolvedView;

    open spec fn deep_view(&self) -> ResolvedView {
        ResolvedView { setting: self.setting.deep_view(), id: self.id.deep_view() }
    }
}

/// The models of the settings, as far as they are known: what each setting
/// names, which model is the default, and what came of loading.
pub struct ModelLoads {
    /// What the setting of the main model names.
    pub main: Option<ResolvedVariant>,
    /// What the setting of the light model names.
    pub light: Option<ResolvedVariant>,
    pub default_variant: String,
    pub main_outcome: ModelOutcome,
    pub light_outcome: ModelOutcome,
}

#[verifier::ext_equal]
pub struct LoadsView {
    pub main: Option<ResolvedView>,
    pub light: Option<ResolvedView>,
    pub default_variant: Seq<char>,
    pub main_outcome: ModelOutcomeView,
    pub light_outcome: ModelOutcomeView,
}

impl DeepView for ModelLoads {
    type V = LoadsView;

    open spec fn deep_view(&self) -> LoadsView {
        LoadsView {
            main: self.main.deep_view(),
            light: self.light.deep_view(),
            default_variant: self.default_variant@,
            main_outcome: self.main_outcome.deep_view(),
            light_outcome: self.light_outcome.deep_view(),
        }
    }
}

/// The models of an engine.
pub struct LoadedModels {
    pub kanji: Option<ModelHandle>,
    pub light_kanji: Option<ModelHandle>,
}

#[verifier::ext_equal]
pub struct ModelsView {
    pub kanji: Option<Seq<char>>,
    pub light_kanji: Option<Seq<char>>,
}

impl DeepView for LoadedModels {
    type V = ModelsView;

    open spec fn deep_view(&self) -> ModelsView {
        ModelsView {
            kanji: self.kanji.deep_view(),
            light_kanji: self.light_kanji.deep_view(),
        }
    }
}

/// Why the models of the settings are not there.
pub enum LoadError {
    /// It has to be known what the setting of the main model names.
    ResolveMain(Option<String>),
    /// It has to be known what the setting of the light model names.
    ResolveLight(Option<String>),
    /// The main model has to be loaded.
    LoadMain(ModelRequest),
    /// The light model has to be loaded.
    LoadLight(ModelRequest),
    InvalidModel,
    InvalidLightModel,
    MainModel(String),
    LightModel(String),
}

#[verifier::ext_equal]
pub enum LoadErrorView {
    ResolveMain(Option<Seq<char>>),
    ResolveLight(Option<Seq<char>>),
    LoadMain(RequestView),
    LoadLight(RequestView),
    InvalidModel,
    InvalidLightModel,
    MainModel(Seq<char>),
    LightModel(Seq<char>),
}

impl DeepView for LoadError {
    type V = LoadErrorView;

    open spec fn deep_view(&self) -> LoadErrorView {
        match *self {
            LoadError::ResolveMain(setting) => LoadErrorView::ResolveMain(setting.deep_view()),
            LoadError::ResolveLight(setting) => LoadErrorView::ResolveLight(setting.deep_view()),
            LoadError::LoadMain(request) => LoadErrorView::LoadMain(request.deep_view()),
            LoadError::LoadLight(request) => LoadErrorView::LoadLight(request.deep_view()),
            LoadError::InvalidModel => LoadErrorView::InvalidModel,
            LoadError::InvalidLightModel => LoadErrorView::InvalidLightModel,
            LoadError::MainModel(reason) => LoadErrorView::MainModel(reason@),
            LoadError::LightModel(reason) => LoadErrorView::LightModel(reason@),
        }
    }
}

/// Whether it is known what a setting names.
pub open spec fn resolves(resolved: Option<ResolvedView>, setting: Option<Seq<char>>) -> bool {
    resolved matches Some(r) && r.setting == setting
}

/// The one model of the settings.
pub open spec fn single_model(
    id: Seq<char>,
    n_threads: u32,
    outcome: ModelOutcomeView,
    light: bool,
) -> Result<Seq<char>, LoadErrorView> {
    match outcome {
        ModelOutcomeView::Loaded(name) => Ok(name),
        ModelOutcomeView::Unknown => Err(
            if light {
                LoadErrorView::LoadLight(request_of(id, n_threads))
            } else {
                LoadErrorView::LoadMain(request_of(id, n_threads))
            },
        ),
        ModelOutcomeView::Failed(reason) => Err(
            if light {
                LoadErrorView::LightModel(reason)
            } else {
                LoadErrorView::MainModel(reason)
            },
        ),
    }
}

/// The models that the settings ask for. The main model has to be there,
/// unless only the light one is wanted; beside it the light one may fail, and
/// the default model stands in for a name that is not known.
pub open spec fn models_of(s: SettingsView, loads: LoadsView) -> Result<ModelsView, LoadErrorView> {
    match s.strategy {
        StrategyMode::Light => if !resolves(loads.light, s.light_model) {
            Err(LoadErrorView::ResolveLight(s.light_model))
        } else {
            match (loads.light->0).id {
                None => Err(LoadErrorView::InvalidLightModel),
                Some(id) => match single_model(id, s.n_threads, loads.light_outcome, true) {
                    Ok(name) => Ok(ModelsView { kanji: Some(name), light_kanji: None }),
                    Err(error) => Err(error),
                },
            }
        },
        _ => if !resolves(loads.main, s.model) {
            Err(LoadErrorView::ResolveMain(s.model))
        } else {
            match (loads.main->0).id {
                None => Err(LoadErrorView::InvalidModel),
                Some(id) => match single_model(id, s.n_threads, loads.main_outcome, false) {
                    Err(error) => Err(error),
                    Ok(name) => if s.strategy == StrategyMode::Main {
                        Ok(ModelsView { kanji: Some(name), light_kanji: None })
                    } else if !resolves(loads.light, s.light_model) {
                        Err(LoadErrorView::ResolveLight(s.light_model))
                    } else {
                        let light_id = match (loads.light->0).id {
                            Some(id) => id,
                            None => loads.default_variant,
                        };
                        match loads.light_outcome {
                            ModelOutcomeView::Loaded(light) => Ok(
                                ModelsView { kanji: Some(name), light_kanji: Some(light) },
                            ),
                            ModelOutcomeView::Failed(_) => Ok(
                                ModelsView { kanji: Some(name), light_kanji: None },
                            ),
                            ModelOutcomeView::Unknown => Err(
                                LoadErrorView::LoadLight(request_of(light_id, s.n_threads)),
                            ),
                        }
                    },
                },
            }
        },
    }
}

fn same_setting(a: &Option<String>, b: &Option<String>) -> (r: bool)
    ensures
        r == (a.deep_view() == b.deep_view()),
{
    match (a, b) {
        (Some(x), Some(y)) => same_text(x.as_str(), y.as_str()),
        (None, None) => true,
        _ => false,
    }
}

fn resolved_id<'a>(resolved: &'a Option<ResolvedVariant>, setting: &Option<String>) -> (r: Option<
    &'a Option<String>,
>)
    ensures
        match r {
            Some(id) => resolves(resolved.deep_view(), setting.deep_view()) && (
            resolved.deep_view()->0).id == id.deep_view(),
            None => !resolves(resolved.deep_view(), setting.deep_view()),
        },
{
    match resolved {
        Some(resolved) => if same_setting(&resolved.setting, setting) {
            Some(&resolved.id)
        } else {
            None
        },
        None => None,
    }
}

fn sole_model(id: &str, n_threads: u32, outcome: ModelOutcome, light: bool) -> (r: Result<
    ModelHandle,
    LoadError,
>)
    ensures
        match r {
            Ok(model) => single_model(id@, n_threads, outcome.deep_view(), light) == Ok::<
                Seq<char>,
                LoadErrorView,
            >(model.deep_view()),
            Err(error) => single_model(id@, n_threads, outcome.deep_view(), light) == Err::<
                Seq<char>,
                LoadErrorView,
            >(error.deep_view()),
        },
{
    match outcome {
        ModelOutcome::Loaded(model) => Ok(model),
        ModelOutcome::Unknown => {
            let request = create_converter(id, n_threads);
            if light {
                Err(LoadError::LoadLight(request))
            } else {
                Err(LoadError::LoadMain(request))
            }
        },
        ModelOutcome::Failed(reason) => if light {
            Err(LoadError::LightModel(reason))
        } else {
            Err(LoadError::MainModel(reason))
        },
    }
}

/// Puts together the models that the settings ask for, as far as they are
/// loaded; else says what is to be done first, or what is wrong.
pub fn load_model_converters(settings: &Settings, loads: ModelLoads) -> (r: Result<
    LoadedModels,
    LoadError,
>)
    ensures
        match r {
            Ok(models) => models_of(settings.deep_view(), loads.deep_view()) == Ok::<
                ModelsView,
                LoadErrorView,
            >(models.deep_view()),
            Err(error) => models_of(settings.deep_view(), loads.deep_view()) == Err::<
                ModelsView,
                LoadErrorView,
            >(error.deep_view()),
        },
{
    let n_threads: u32 = settings.conversion.n_threads;
    let strategy = settings.conversion.strategy;
    if strategy == StrategyMode::Light {
        let id = match resolved_id(&loads.light, &settings.conversion.light_model) {
            Some(Some(id)) => id,
            Some(None) => return Err(LoadError::InvalidLightModel),
            None => return Err(
                LoadError::ResolveLight(settings.conversion.light_model.clone()),
            ),
        };
        return match sole_model(id.as_str(), n_threads, loads.light_outcome, true) {
            Ok(model) => Ok(LoadedModels { kanji: Some(model), light_kanji: None }),
            Err(error) => Err(error),
        };
    }
    let id = match resolved_id(&loads.main, &settings.conversion.model) {
        Some(Some(id)) => id,
        Some(None) => return Err(LoadError::InvalidModel),
        None => return Err(LoadError::ResolveMain(settings.conversion.model.clone())),
    };
    let main = match sole_model(id.as_str(), n_threads, loads.main_outcome, false) {
        Ok(model) => model,
        Err(error) => return Err(error),
    };
    if strategy == StrategyMode::Main {
        return Ok(LoadedModels { kanji: Some(main), light_kanji: None });
    }
    let light_id: &str = match resolved_id(&loads.light, &settings.conversion.light_model) {
        Some(Some(id)) => id.as_str(),
        Some(None) => loads.default_variant.as_str(),
        None => return Err(LoadError::ResolveLight(settings.conversion.light_model.clone())),
    };
    match loads.light_outcome {
        ModelOutcome::Loaded(light) => Ok(
            LoadedModels { kanji: Some(main), light_kanji: Some(light) },
        ),
        ModelOutcome::Failed(_) => Ok(LoadedModels { kanji: Some(main), light_kanji: None }),
        ModelOutcome::Unknown => Err(
            LoadError::LoadLight(create_converter(light_id, n_threads)),
        ),
    }
}

/// The path of a file in a directory.
pub open spec fn path_in(dir: Seq<char>, name: Seq<char>) -> Seq<char> {
    if dir.len() == 0 {
        name
    } else if dir.last() == '/' {
        dir + name
    } else {
        dir.push('/') + name
    }
}

fn join_path(dir: &str, name: &str) -> (r: String)
    ensures
        r@ == path_in(dir@, name@),
{
    let chars = chars_of(dir);
    let n: usize = chars.len();
    if n == 0 {
        return name.to_owned();
    }
    if chars[n - 1] == '/' {
        return joined(dir, name);
    }
    let mut path = dir.to_owned();
    path.push('/');
    joined(path.as_str(), name)
}

/// Where the system dictionary is: where the settings say, else in the data
/// directory.
pub open spec fn system_path(dict_path: Option<Seq<char>>, data_dir: Option<Seq<char>>) -> Option<
    Seq<char>,
> {
    match dict_path {
        Some(path) => Some(path),
        None => match data_dir {
            Some(dir) => Some(path_in(dir, archive::DICTIONARY_NAME@)),
            None => None,
        },
    }
}

/// What is at the path of a dictionary.
pub enum DictionaryFile {
    Missing,
    Unreadable,
    Loaded(Dictionary),
}

#[verifier::ext_equal]
pub enum DictionaryFileView {
    Missing,
    Unreadable,
    Loaded(Seq<EntryView>),
}

impl DeepView for DictionaryFile {
    type V = DictionaryFileView;

    open spec fn deep_view(&self) -> DictionaryFileView {
        match *self {
            DictionaryFile::Missing => DictionaryFileView::Missing,
            DictionaryFile::Unreadable => DictionaryFileView::Unreadable,
            DictionaryFile::Loaded(dictionary) => DictionaryFileView::Loaded(
                dictionary.deep_view(),
            ),
        }
    }
}

/// The engine with the system dictionary, and the path that has to be looked
/// at where that was not done yet. Without a dictionary the engine goes on.
pub open spec fn with_system(
    e: EngineView,
    dict_path: Option<Seq<char>>,
    data_dir: Option<Seq<char>>,
    found: Option<DictionaryFileView>,
) -> (EngineView, Option<Seq<char>>) {
    if e.system is Some {
        (e, None)
    } else {
        match (system_path(dict_path, data_dir), found) {
            (None, _) => (e, None),
            (Some(path), None) => (e, Some(path)),
            (Some(_), Some(DictionaryFileView::Loaded(dictionary))) => (
                EngineView { system: Some(dictionary), ..e },
                None,
            ),
            _ => (e, None),
        }
    }
}

/// The engine with the dictionaries of the user, unless it has them.
pub open spec fn with_user(e: EngineView, merged: Option<Seq<EntryView>>) -> EngineView {
    if e.user is Some {
        e
    } else {
        EngineView { user: merged, ..e }
    }
}

/// The dictionaries that could be loaded, in their order.
pub open spec fn usable<D>(loads: Seq<Option<D>>) -> Seq<D>
    decreases loads.len(),
{
    if loads.len() == 0 {
        Seq::empty()
    } else {
        match loads.last() {
            Some(dictionary) => usable(loads.drop_last()).push(dictionary),
            None => usable(loads.drop_last()),
        }
    }
}

/// Keeps the dictionaries that could be loaded, in their order; one that could
/// not is passed over.
pub fn usable_dictionaries<D>(loads: Vec<Option<D>>) -> (r: Vec<D>)
    ensures
        r@ == usable(loads@),
{
    let ghost all = loads@;
    let mut rest = loads;
    let mut out: Vec<D> = Vec::new();
    assert(usable(rest@) + out@ =~= usable(all));
    while rest.len() > 0
        invariant
            usable(rest@) + out@ == usable(all),
        decreases rest@.len(),
    {
        let ghost before = rest@;
        let ghost kept = out@;
        if let Some(last) = rest.pop() {
            assert(rest@ =~= before.drop_last());
            if let Some(dictionary) = last {
                out.insert(0, dictionary);
                assert(usable(rest@) + out@ =~= usable(rest@).push(dictionary) + kept);
            }
        }
    }
    assert(usable(rest@) + out@ =~= out@);
    out
}

/// The dictionaries that are to be merged: those that could be loaded. Where
/// there is none, nothing is merged.
pub fn dictionaries_to_merge<D>(loads: Vec<Option<D>>) -> (r: Option<Vec<D>>)
    ensures
        match r {
            Some(dictionaries) => dictionaries@ == usable(loads@) && dictionaries@.len() > 0,
            None => usable(loads@).len() == 0,
        },
{
    let dictionaries = usable_dictionaries(loads);
    if dictionaries.len() == 0 {
        None
    } else {
        Some(dictionaries)
    }
}

/// What is at the path of a history.
#[derive(Debug, Clone, Copy, PartialEq, Eq, Structural)]
pub enum HistoryFile {
    /// The path itself is not known.
    Unknown,
    Missing,
    Unreadable,
    Loaded,
}

/// Says whether a history starts empty: it does unless an earlier one was
/// loaded.
pub fn starts_empty(found: HistoryFile) -> (r: bool)
    ensures
        r == (found != HistoryFile::Loaded),
{
    match found {
        HistoryFile::Loaded => false,
        _ => true,
    }
}

/// The engine with a history, where one is wanted and there is none yet.
pub open spec fn with_learning(e: EngineView, enabled: bool, config: LearningConfig) -> EngineView {
    if !enabled || e.learning is Some {
        e
    } else {
        EngineView { learning: Some(config), ..e }
    }
}

/// What was found for an engine besides its models.
pub struct FoundResources {
    pub data_dir: Option<String>,
    pub system: Option<DictionaryFile>,
    /// The dictionaries of the user, merged.
    pub user: Option<Dictionary>,
    /// Whether the system dictionary is being updated in the background.
    pub updating: bool,
}

#[verifier::ext_equal]
pub struct FoundView {
    pub data_dir: Option<Seq<char>>,
    pub system: Option<DictionaryFileView>,
    pub user: Option<Seq<EntryView>>,
    pub updating: bool,
}

impl DeepView for FoundResources {
    type V = FoundView;

    open spec fn deep_view(&self) -> FoundView {
        FoundView {
            data_dir: self.data_dir.deep_view(),
            system: self.system.deep_view(),
            user: self.user.deep_view(),
            updating: self.updating,
        }
    }
}

/// The engine with all it gets from the settings besides its models.
pub open spec fn with_resources(e: EngineView, s: SettingsView, found: FoundView) -> EngineView {
    let system = with_system(e, s.dict_path, found.data_dir, found.system).0;
    let updating = EngineView { updating: found.updating, ..system };
    with_learning(with_user(updating, found.user), s.learning, s.learning_limits)
}

/// The engine with new models: what was converted without them is not used
/// again.
pub open spec fn with_models(e: EngineView, models: ModelsView) -> EngineView {
    EngineView {
        kanji: models.kanji,
        light_kanji: models.light_kanji,
        chunks: Seq::empty(),
        ..e
    }
}

impl InputMethodEngine {
    /// Installs the system dictionary, unless there is one. Where it was not
    /// looked for yet, says where it is to be looked for.
    pub fn init_system_dictionary(
        &mut self,
        dict_path: &Option<String>,
        data_dir: &Option<String>,
        found: Option<DictionaryFile>,
    ) -> (r: Option<String>)
        ensures
            (final(self).deep_view(), r.deep_view()) == with_system(
                old(self).deep_view(),
                dict_path.deep_view(),
                data_dir.deep_view(),
                found.deep_view(),
            ),
    {
        if self.dicts.system.is_some() {
            return None;
        }
        let path = match dict_path {
            Some(path) => path.clone(),
            None => match data_dir {
                Some(dir) => join_path(dir.as_str(), DICTIONARY_NAME),
                None => return None,
            },
        };
        match found {
            None => Some(path),
            Some(DictionaryFile::Loaded(dictionary)) => {
                self.dicts.system = Some(dictionary);
                None
            },
            Some(_) => None,
        }
    }

    /// The files of the user's dictionaries in the order in which they are
    /// loaded; none where they are there already.
    pub fn user_dictionary_order(&self, files: Vec<String>) -> (r: Vec<String>)
        ensures
            self.deep_view().user is Some ==> r@.len() == 0,
            self.deep_view().user is None ==> text::in_order(r.deep_view())
                && r.deep_view().to_multiset() == files.deep_view().to_multiset(),
    {
        if self.dicts.user.is_some() {
            Vec::new()
        } else {
            sorted_texts(files)
        }
    }

    /// Installs the merged dictionaries of the user, unless they are there.
    pub fn init_user_dictionaries(&mut self, merged: Option<Dictionary>)
        ensures
            final(self).deep_view() == with_user(old(self).deep_view(), merged.deep_view()),
    {
        if self.dicts.user.is_none() {
            self.dicts.user = merged;
        }
    }

    /// Begins a history, where one is wanted and there is none yet.
    pub fn init_learning_cache(&mut self, enabled: bool, config: LearningConfig)
        ensures
            final(self).deep_view() == with_learning(old(self).deep_view(), enabled, config),
    {
        if !enabled || self.learning.is_some() {
            return;
        }
        self.learning = Some(config);
    }

    fn init_non_model_state(&mut self, settings: &Settings, found: FoundResources)
        ensures
            final(self).deep_view() == with_resources(
                old(self).deep_view(),
                settings.deep_view(),
                found.deep_view(),
            ),
    {
        let FoundResources { data_dir, system, user, updating } = found;
        self.init_system_dictionary(&settings.conversion.dict_path, &data_dir, system);
        self.dictionary_update = updating;
        self.init_user_dictionaries(user);
        self.init_learning_cache(
            settings.learning.enabled,
            LearningConfig {
                max_entries: settings.learning.max_entries,
                max_surface_chars: settings.learning.max_surface_chars,
            },
        );
    }

    /// Installs models.
    pub fn install_model_converters(&mut self, models: LoadedModels)
        ensures
            final(self).deep_view() == with_models(old(self).deep_view(), models.deep_view()),
    {
        self.converters.kanji = models.kanji;
        self.converters.light_kanji = models.light_kanji;
        self.chunks = Vec::new();
        assert(self.chunks.deep_view() =~= Seq::empty());
    }

    /// Gets the engine ready as the settings ask for it. Without its models
    /// it fails; the rest is installed all the same.
    pub fn init_from_settings(
        &mut self,
        settings: &Settings,
        found: FoundResources,
        loads: ModelLoads,
    ) -> (r: Result<(), LoadError>)
        ensures
            ({
                let ready = with_resources(
                    old(self).deep_view(),
                    settings.deep_view(),
                    found.deep_view(),
                );
                match models_of(settings.deep_view(), loads.deep_view()) {
                    Ok(models) => r is Ok && final(self).deep_view() == with_models(ready, models),
                    Err(error) => (r matches Err(e) && e.deep_view() == error)
                        && final(self).deep_view() == ready,
                }
            }),
    {
        self.init_non_model_state(settings, found);
        match load_model_converters(settings, loads) {
            Ok(models) => {
                self.install_model_converters(models);
                Ok(())
            },
            Err(error) => Err(error),
        }
    }

    /// Whether the engine is to be got ready in the background: it has no
    /// model, and nothing is being loaded.
    pub fn wants_async_init(&self) -> (r: bool)
        ensures
            r == (self.deep_view().kanji is None && !self.deep_view().loading),
    {
        self.converters.kanji.is_none() && !self.resource_initialization
    }

    /// Takes note of whether loading in the background has started; where it
    /// was not to be started, that changes nothing. Says whether all is well.
    pub fn init_from_settings_async(&mut self, started: bool) -> (r: bool)
        ensures
            ({
                let e = old(self).deep_view();
                if e.kanji is Some || e.loading {
                    r && final(self).deep_view() == e
                } else {
                    r == started && final(self).deep_view() == (EngineView {
                        loading: started,
                        ..e
                    })
                }
            }),
    {
        if !self.wants_async_init() {
            return true;
        }
        self.resource_initialization = started;
        started
    }
}

/// What was loaded in the background.
pub struct LoadedResources {
    pub models: LoadedModels,
    pub user: Option<Dictionary>,
    pub system: Option<Dictionary>,
    pub learning: Option<LearningConfig>,
    pub updating: bool,
}

#[verifier::ext_equal]
pub struct ResourcesView {
    pub models: ModelsView,
    pub user: Option<Seq<EntryView>>,
    pub system: Option<Seq<EntryView>>,
    pub learning: Option<LearningConfig>,
    pub updating: bool,
}

impl DeepView for LoadedResources {
    type V = ResourcesView;

    open spec fn deep_view(&self) -> ResourcesView {
        ResourcesView {
            models: self.models.deep_view(),
            user: self.user.deep_view(),
            system: self.system.deep_view(),
            learning: self.learning,
            updating: self.updating,
        }
    }
}

/// How far loading in the background is.
pub enum ResourcePoll {
    Pending,
    Disconnected,
    Failed,
    Loaded(LoadedResources),
}

#[verifier::ext_equal]
pub enum ResourcePollView {
    Pending,
    Disconnected,
    Failed,
    Loaded(ResourcesView),
}

impl DeepView for ResourcePoll {
    type V = ResourcePollView;

    open spec fn deep_view(&self) -> ResourcePollView {
        match *self {
            ResourcePoll::Pending => ResourcePollView::Pending,
            ResourcePoll::Disconnected => ResourcePollView::Disconnected,
            ResourcePoll::Failed => ResourcePollView::Failed,
            ResourcePoll::Loaded(resources) => ResourcePollView::Loaded(resources.deep_view()),
        }
    }
}

/// The engine with what was loaded in the background.
pub open spec fn with_loaded(e: EngineView, loaded: ResourcesView) -> EngineView {
    EngineView {
        user: loaded.user,
        system: loaded.system,
        learning: loaded.learning,
        updating: loaded.updating,
        ..with_models(e, loaded.models)
    }
}

/// The engine after a look at what is being loaded in the background.
pub open spec fn after_poll(e: EngineView, poll: ResourcePollView) -> EngineView {
    if !e.loading {
        e
    } else {
        match poll {
            ResourcePollView::Pending => e,
            ResourcePollView::Loaded(loaded) => with_loaded(
                EngineView { loading: false, ..e },
                loaded,
            ),
            _ => EngineView { loading: false, ..e },
        }
    }
}

/// How far an update of the system dictionary in the background is.
pub enum UpdatePoll {
    Pending,
    Disconnected,
    /// Checks that ended; one that failed says why.
    Ended(Vec<Result<BackgroundDictionaryUpdate, String>>),
}

/// The dictionary that a check in the background has brought.
pub open spec fn brought(result: Result<BackgroundDictionaryUpdate, String>) -> Option<
    Seq<EntryView>,
> {
    match result {
        Ok(update) => match update.outcome {
            DictionaryUpdateOutcome::Updated { .. } => update.dictionary.deep_view(),
            _ => None,
        },
        Err(_) => None,
    }
}

/// The system dictionary after checks in the background: the last one that
/// was brought, else the one in use.
pub open spec fn after_checks(
    system: Option<Seq<EntryView>>,
    results: Seq<Result<BackgroundDictionaryUpdate, String>>,
) -> Option<Seq<EntryView>>
    decreases results.len(),
{
    if results.len() == 0 {
        system
    } else {
        match brought(results.last()) {
            Some(dictionary) => Some(dictionary),
            None => after_checks(system, results.drop_last()),
        }
    }
}

/// The engine after a look at the update in the background.
pub open spec fn after_update_poll(e: EngineView, poll: UpdatePoll) -> EngineView {
    if !e.updating {
        e
    } else {
        match poll {
            UpdatePoll::Pending => e,
            UpdatePoll::Disconnected => EngineView { updating: false, ..e },
            UpdatePoll::Ended(results) => EngineView {
                system: after_checks(e.system, results@),
                ..e
            },
        }
    }
}

impl InputMethodEngine {
    fn install_initialized_resources(&mut self, loaded: LoadedResources)
        ensures
            final(self).deep_view() == with_loaded(old(self).deep_view(), loaded.deep_view()),
    {
        let LoadedResources { models, user, system, learning, updating } = loaded;
        self.install_model_converters(models);
        self.dicts.user = user;
        self.dicts.system = system;
        self.learning = learning;
        self.dictionary_update = updating;
    }

    /// Installs what was loaded in the background, if it is there. Where that
    /// failed, typing goes on by rule.
    pub fn poll_resource_initialization(&mut self, poll: ResourcePoll)
        ensures
            final(self).deep_view() == after_poll(old(self).deep_view(), poll.deep_view()),
    {
        if !self.resource_initialization {
            return;
        }
        match poll {
            ResourcePoll::Pending => {},
            ResourcePoll::Disconnected | ResourcePoll::Failed => {
                self.resource_initialization = false;
            },
            ResourcePoll::Loaded(loaded) => {
                self.resource_initialization = false;
                self.install_initialized_resources(loaded);
            },
        }
    }

    /// Takes over a system dictionary that was updated in the background. A
    /// check that failed changes nothing.
    pub fn poll_dictionary_update(&mut self, poll: UpdatePoll)
        ensures
            final(self).deep_view() == after_update_poll(old(self).deep_view(), poll),
    {
        if !self.dictionary_update {
            return;
        }
        match poll {
            UpdatePoll::Pending => {},
            UpdatePoll::Disconnected => {
                self.dictionary_update = false;
            },
            UpdatePoll::Ended(results) => {
                let ghost all = results@;
                let ghost e = self.deep_view();
                let mut results = results;
                while results.len() > 0
                    invariant
                        self.deep_view() == e,
                        after_update_poll(old(self).deep_view(), poll) == (EngineView {
                            system: after_checks(e.system, all),
                            ..e
                        }),
                        after_checks(e.system, results@) == after_checks(e.system, all),
                    ensures
                        self.deep_view() == (EngineView {
                            system: after_checks(e.system, all),
                            ..e
                        }),
                    decreases results@.len(),
                {
                    let ghost before = results@;
                    if let Some(result) = results.pop() {
                        assert(results@ =~= before.drop_last());
                        assert(result == before.last());
                        if let Ok(update) = result {
                            if let DictionaryUpdateOutcome::Updated { .. } = update.outcome {
                                if let Some(dictionary) = update.dictionary {
                                    self.dicts.system = Some(dictionary);
                                    return;
                                }
                            }
                        }
                    }
                }
            },
        }
    }
}

/// Models, dictionaries and a history that an engine has are kept when it is
/// got ready again.
pub proof fn law_getting_ready_keeps_what_is_there(e: EngineView, s: SettingsView, found: FoundView)
    ensures
        ({
            let ready = with_resources(e, s, found);
            &&& e.system is Some ==> ready.system == e.system
            &&& e.user is Some ==> ready.user == e.user
            &&& e.learning is Some ==> ready.learning == e.learning
            &&& ready.text == e.text && ready.state == e.state
        }),
{
}

/// What is loaded in the background never touches what is being typed.
pub proof fn law_background_loading_keeps_the_input(e: EngineView, poll: ResourcePollView)
    ensures
        after_poll(e, poll).text == e.text,
        after_poll(e, poll).state == e.state,
        after_poll(e, poll).romaji == e.romaji,
        after_poll(e, poll).mode == e.mode,
{
}

/// A check in the background that fails leaves the dictionary in use.
pub proof fn law_failed_checks_keep_the_dictionary(
    system: Option<Seq<EntryView>>,
    results: Seq<Result<BackgroundDictionaryUpdate, String>>,
)
    requires
        forall|i: int| 0 <= i < results.len() ==> (#[trigger] results[i]) is Err,
    ensures
        after_checks(system, results) == system,
    decreases results.len(),
{
    if results.len() > 0 {
        assert(results[results.len() - 1] is Err);
        assert forall|i: int| 0 <= i < results.drop_last().len() implies (
        #[trigger] results.drop_last()[i]) is Err by {
            assert(results[i] is Err);
        }
        law_failed_checks_keep_the_dictionary(system, results.drop_last());
    }
}

} // verus!
