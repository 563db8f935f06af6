//! The decision core of the Karukan Japanese input method.

pub mod action;
pub mod advice;
pub mod alignment;
pub mod alignment_laws;
pub mod archive;
pub mod candidate;
pub mod clause_laws;
pub mod clauses;
pub mod clock;
pub mod coherence;
pub mod consult;
pub mod conversion;
pub mod conversion_laws;
pub mod dictionary;
pub mod dictionary_laws;
pub mod dictionary_update;
pub mod division_laws;
pub mod engine;
pub mod hash;
pub mod init;
pub mod input;
pub mod kana;
pub mod kana_laws;
pub mod keycode;
pub mod lists;
pub mod mode;
pub mod model;
pub mod model_laws;
pub mod preedit;
pub mod ready_laws;
pub mod segmentation;
pub mod settings;
pub mod source_laws;
pub mod sources;
pub mod spans;
pub mod state;
pub mod surface_laws;
pub mod text;
pub mod text_laws;
pub mod typing_laws;
pub mod update_laws;
pub mod updater;
