//! What the engine asks the application to do after a key.

use vstd::prelude::*;
use crate::candidate::{CandidateList, ListView};
use crate::lists::add_item;
use crate::preedit::{Preedit, PreeditView};

verus! {

/// The text beside the candidates.
pub enum AuxText {
    /// A finished text.
    Text(String),
    /// The line for a composition.
    Composing,
    /// The line for a clause and the page of its candidates.
    Conversion { reading: String, candidates: CandidateList },
}

#[verifier::ext_equal]
pub enum AuxView {
    Text(Seq<char>),
    Composing,
    Conversion { reading: Seq<char>, candidates: ListView },
}

impl DeepView for AuxText {
    type V = AuxView;

    open spec fn deep_view(&self) -> AuxView {
        match *self {
            AuxText::Text(text) => AuxView::Text(text@),
            AuxText::Composing => AuxView::Composing,
            AuxText::Conversion { reading, candidates } => AuxView::Conversion {
                reading: reading@,
                candidates: candidates.deep_view(),
            },
        }
    }
}

/// One thing to do.
pub enum EngineAction {
    UpdatePreedit(Preedit),
    ShowCandidates(CandidateList),
    HideCandidates,
    UpdateAuxText(AuxText),
    HideAuxText,
    Commit(String),
}

#[verifier::ext_equal]
pub enum ActionView {
    UpdatePreedit(PreeditView),
    ShowCandidates(ListView),
    HideCandidates,
    UpdateAuxText(AuxView),
    HideAuxText,
    Commit(Seq<char>),
}

impl DeepView for EngineAction {
    type V = ActionView;

    open spec fn deep_view(&self) -> ActionView {
        match *self {
            EngineAction::UpdatePreedit(preedit) => ActionView::UpdatePreedit(preedit.deep_view()),
            EngineAction::ShowCandidates(list) => ActionView::ShowCandidates(list.deep_view()),
            EngineAction::HideCandidates => ActionView::HideCandidates,
            EngineAction::UpdateAuxText(aux) => ActionView::UpdateAuxText(aux.deep_view()),
            EngineAction::HideAuxText => ActionView::HideAuxText,
            EngineAction::Commit(text) => ActionView::Commit(text@),
        }
    }
}

/// Whether a key was used up, and what is to be done.
pub struct EngineResult {
    pub consumed: bool,
    pub actions: Vec<EngineAction>,
}

#[verifier::ext_equal]
pub struct ResultView {
    pub consumed: bool,
    pub actions: Seq<ActionView>,
}

impl DeepView for EngineResult {
    type V = ResultView;

    open spec fn deep_view(&self) -> ResultView {
        ResultView { consumed: self.consumed, actions: self.actions.deep_view() }
    }
}

/// A key that was used up, and what is to be done.
pub open spec fn consumed(actions: Seq<ActionView>) -> ResultView {
    ResultView { consumed: true, actions }
}

/// A key that is left to the application.
pub open spec fn not_consumed() -> ResultView {
    ResultView { consumed: false, actions: Seq::empty() }
}

impl EngineResult {
    pub fn consumed() -> (r: Self)
        ensures
            r.deep_view() == consumed(Seq::empty()),
    {
        let actions: Vec<EngineAction> = Vec::new();
        assert(actions.deep_view() =~= Seq::empty());
        EngineResult { consumed: true, actions }
    }

    pub fn not_consumed() -> (r: Self)
        ensures
            r.deep_view() == not_consumed(),
    {
        let actions: Vec<EngineAction> = Vec::new();
        assert(actions.deep_view() =~= Seq::empty());
        EngineResult { consumed: false, actions }
    }

    /// The same with one more thing to do.
    pub fn with_action(self, action: EngineAction) -> (r: Self)
        ensures
            r.deep_view() == (ResultView {
                actions: self.deep_view().actions.push(action.deep_view()),
                ..self.deep_view()
            }),
    {
        let mut result = self;
        add_item(&mut result.actions, action);
        result
    }
}

} // verus!
