//! What the conversion services say of a reading: the model's conversions,
//! the learned ones, the rule-based variants and symbol names.

use vstd::prelude::*;

verus! {

/// A learned conversion.
pub struct LearnedEntry {
    pub reading: String,
    pub surface: String,
}

#[verifier::ext_equal]
pub struct LearnedView {
    pub reading: Seq<char>,
    pub surface: Seq<char>,
}

impl DeepView for LearnedEntry {
    type V = LearnedView;

    open spec fn deep_view(&self) -> LearnedView {
        LearnedView { reading: self.reading@, surface: self.surface@ }
    }
}

impl Clone for LearnedEntry {
    fn clone(&self) -> (r: Self)
        ensures
            r.deep_view() == self.deep_view(),
    {
        LearnedEntry { reading: self.reading.clone(), surface: self.surface.clone() }
    }
}

/// A rule-based variant of what was typed.
pub struct Rewrite {
    pub text: String,
    pub description: Option<String>,
}

#[verifier::ext_equal]
pub struct RewriteView {
    pub text: Seq<char>,
    pub description: Option<Seq<char>>,
}

impl DeepView for Rewrite {
    type V = RewriteView;

    open spec fn deep_view(&self) -> RewriteView {
        RewriteView { text: self.text@, description: self.description.deep_view() }
    }
}

/// Everything the services say of one reading.
///
/// `model` holds the conversions of the model, best first, and is empty where
/// no model ran. `learned_exact` holds the learned surfaces of the reading and
/// `learned_prefix` the learned entries whose readings begin with it, best
/// first. The two symbols are the names of the reading and of its katakana
/// form, where these are known symbols.
pub struct ReadingAdvice {
    pub reading: String,
    pub model: Vec<String>,
    pub learned_exact: Vec<String>,
    pub learned_prefix: Vec<LearnedEntry>,
    pub rewrites: Vec<Rewrite>,
    pub reading_symbol: Option<String>,
    pub katakana_symbol: Option<String>,
}

#[verifier::ext_equal]
pub struct AdviceView {
    pub reading: Seq<char>,
    pub model: Seq<Seq<char>>,
    pub learned_exact: Seq<Seq<char>>,
    pub learned_prefix: Seq<LearnedView>,
    pub rewrites: Seq<RewriteView>,
    pub reading_symbol: Option<Seq<char>>,
    pub katakana_symbol: Option<Seq<char>>,
}

impl DeepView for ReadingAdvice {
    type V = AdviceView;

    open spec fn deep_view(&self) -> AdviceView {
        AdviceView {
            reading: self.reading@,
            model: self.model.deep_view(),
            learned_exact: self.learned_exact.deep_view(),
            learned_prefix: self.learned_prefix.deep_view(),
            rewrites: self.rewrites.deep_view(),
            reading_symbol: self.reading_symbol.deep_view(),
            katakana_symbol: self.katakana_symbol.deep_view(),
        }
    }
}

} // verus!
