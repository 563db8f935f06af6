//! The user's settings, and what the engine takes from them.

use vstd::prelude::*;

verus! {

/// Which of the two models converts.
#[derive(Debug, Clone, Copy, PartialEq, Eq, Structural)]
pub enum StrategyMode {
    /// The main model, and the light one for further candidates.
    Adaptive,
    Light,
    Main,
}

/// Settings of the conversion.
pub struct ConversionSettings {
    pub model: Option<String>,
    pub light_model: Option<String>,
    pub dict_path: Option<String>,
    pub strategy: StrategyMode,
    pub n_threads: u32,
    pub live_conversion: bool,
}

/// Settings of the history of conversions.
pub struct LearningSettings {
    pub enabled: bool,
    pub max_entries: usize,
    pub max_surface_chars: usize,
}

/// Settings of the updates of the system dictionary.
pub struct DictionaryUpdateSettings {
    pub enabled: bool,
    pub manifest_url: String,
    pub check_interval_hours: u64,
    pub timeout_seconds: u64,
}

/// The user's settings.
pub struct Settings {
    pub conversion: ConversionSettings,
    pub learning: LearningSettings,
    pub dictionary_update: DictionaryUpdateSettings,
}

#[verifier::ext_equal]
pub struct SettingsView {
    pub model: Option<Seq<char>>,
    pub light_model: Option<Seq<char>>,
    pub dict_path: Option<Seq<char>>,
    pub strategy: StrategyMode,
    pub n_threads: u32,
    pub live_conversion: bool,
    pub learning: bool,
    pub learning_limits: LearningConfig,
    pub updates: bool,
    pub manifest_url: Seq<char>,
    pub check_interval_hours: u64,
    pub timeout_seconds: u64,
}

impl DeepView for Settings {
    type V = SettingsView;

    open spec fn deep_view(&self) -> SettingsView {
        SettingsView {
            model: self.conversion.model.deep_view(),
            light_model: self.conversion.light_model.deep_view(),
            dict_path: self.conversion.dict_path.deep_view(),
            strategy: self.conversion.strategy,
            n_threads: self.conversion.n_threads,
            live_conversion: self.conversion.live_conversion,
            learning: self.learning.enabled,
            learning_limits: LearningConfig {
                max_entries: self.learning.max_entries,
                max_surface_chars: self.learning.max_surface_chars,
            },
            updates: self.dictionary_update.enabled,
            manifest_url: self.dictionary_update.manifest_url@,
            check_interval_hours: self.dictionary_update.check_interval_hours,
            timeout_seconds: self.dictionary_update.timeout_seconds,
        }
    }
}

impl Clone for Settings {
    fn clone(&self) -> (r: Self)
        ensures
            r.deep_view() == self.deep_view(),
    {
        Settings {
            conversion: ConversionSettings {
                model: self.conversion.model.clone(),
                light_model: self.conversion.light_model.clone(),
                dict_path: self.conversion.dict_path.clone(),
                strategy: self.conversion.strategy,
                n_threads: self.conversion.n_threads,
                live_conversion: self.conversion.live_conversion,
            },
            learning: LearningSettings {
                enabled: self.learning.enabled,
                max_entries: self.learning.max_entries,
                max_surface_chars: self.learning.max_surface_chars,
            },
            dictionary_update: DictionaryUpdateSettings {
                enabled: self.dictionary_update.enabled,
                manifest_url: self.dictionary_update.manifest_url.clone(),
                check_interval_hours: self.dictionary_update.check_interval_hours,
                timeout_seconds: self.dictionary_update.timeout_seconds,
            },
        }
    }
}

/// The limits of the history of conversions.
#[derive(Debug, Clone, Copy, PartialEq, Eq, Structural)]
pub struct LearningConfig {
    pub max_entries: usize,
    /// Longer surfaces are not recorded.
    pub max_surface_chars: usize,
}

/// What the engine is tuned by.
#[derive(Debug, Clone, Copy, PartialEq, Eq, Structural)]
pub struct EngineConfig {
    /// The length of the pieces that are converted while typing.
    pub composing_chunk_len: usize,
    /// The number of conversions asked of the model for a list.
    pub num_candidates: usize,
    /// The number of characters of context shown to the model.
    pub max_api_context_len: usize,
    /// Whether the text is converted while it is typed.
    pub live_conversion: bool,
}

/// The configuration with nothing set by the user.
pub open spec fn default_config() -> EngineConfig {
    EngineConfig {
        composing_chunk_len: 40,
        num_candidates: 9,
        max_api_context_len: 20,
        live_conversion: true,
    }
}

impl Default for EngineConfig {
    fn default() -> (r: Self)
        ensures
            r == default_config(),
    {
        EngineConfig {
            composing_chunk_len: 40,
            num_candidates: 9,
            max_api_context_len: 20,
            live_conversion: true,
        }
    }
}

impl EngineConfig {
    /// The configuration that the user's settings ask for.
    pub fn from_settings(settings: &Settings) -> (r: Self)
        ensures
            r == (EngineConfig {
                live_conversion: settings.deep_view().live_conversion,
                ..default_config()
            }),
    {
        EngineConfig {
            composing_chunk_len: 40,
            num_candidates: 9,
            max_api_context_len: 20,
            live_conversion: settings.conversion.live_conversion,
        }
    }
}

} // verus!
