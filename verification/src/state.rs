//! What the engine is doing: nothing, composing a text, or converting it.

use vstd::prelude::*;
use crate::candidate::{CandidateList, ListView};
use crate::preedit::{Preedit, PreeditView};

verus! {

/// One clause of a conversion.
pub struct ConversionSegment {
    pub reading: String,
    pub candidates: CandidateList,
    /// Whether the list so far holds only the candidate on display.
    pub needs_expansion: bool,
}

#[verifier::ext_equal]
pub struct SegmentView {
    pub reading: Seq<char>,
    pub candidates: ListView,
    pub needs_expansion: bool,
}

impl DeepView for ConversionSegment {
    type V = SegmentView;

    open spec fn deep_view(&self) -> SegmentView {
        SegmentView {
            reading: self.reading@,
            candidates: self.candidates.deep_view(),
            needs_expansion: self.needs_expansion,
        }
    }
}

impl Clone for ConversionSegment {
    fn clone(&self) -> (r: Self)
        ensures
            r.deep_view() == self.deep_view(),
    {
        ConversionSegment {
            reading: self.reading.clone(),
            candidates: self.candidates.clone(),
            needs_expansion: self.needs_expansion,
        }
    }
}

/// The state of the input.
pub enum InputState {
    Empty,
    Composing { preedit: Preedit, romaji_buffer: String },
    Conversion {
        preedit: Preedit,
        candidates: CandidateList,
        segments: Vec<ConversionSegment>,
        active_segment: usize,
        skip_learning: bool,
    },
}

#[verifier::ext_equal]
pub enum StateView {
    Empty,
    Composing { preedit: PreeditView, romaji_buffer: Seq<char> },
    Conversion {
        preedit: PreeditView,
        candidates: ListView,
        segments: Seq<SegmentView>,
        active_segment: int,
        skip_learning: bool,
    },
}

impl DeepView for InputState {
    type V = StateView;

    open spec fn deep_view(&self) -> StateView {
        match *self {
            InputState::Empty => StateView::Empty,
            InputState::Composing { preedit, romaji_buffer } => StateView::Composing {
                preedit: preedit.deep_view(),
                romaji_buffer: romaji_buffer@,
            },
            InputState::Conversion {
                preedit,
                candidates,
                segments,
                active_segment,
                skip_learning,
            } => StateView::Conversion {
                preedit: preedit.deep_view(),
                candidates: candidates.deep_view(),
                segments: segments.deep_view(),
                active_segment: active_segment as int,
                skip_learning,
            },
        }
    }
}

/// The candidates on display.
pub open spec fn shown_candidates(state: StateView) -> Option<ListView> {
    match state {
        StateView::Conversion { candidates, .. } => Some(candidates),
        _ => None,
    }
}

impl InputState {
    /// The candidates on display.
    pub fn candidates(&self) -> (r: Option<&CandidateList>)
        ensures
            match r {
                Some(list) => shown_candidates(self.deep_view()) == Some(list.deep_view()),
                None => shown_candidates(self.deep_view()) is None,
            },
    {
        match self {
            InputState::Conversion { candidates, .. } => Some(candidates),
            _ => None,
        }
    }
}

/// The readings of the clauses, one behind the other.
pub open spec fn readings_text(segments: Seq<SegmentView>) -> Seq<char>
    decreases segments.len(),
{
    if segments.len() == 0 {
        Seq::empty()
    } else {
        readings_text(segments.drop_last()) + segments.last().reading
    }
}

/// A copy of a list of clauses.
pub fn copied(segments: &Vec<ConversionSegment>) -> (r: Vec<ConversionSegment>)
    ensures
        r.deep_view() == segments.deep_view(),
        r@.len() == segments@.len(),
{
    let r = segments.clone();
    assert(r.deep_view() =~= segments.deep_view());
    r
}

} // verus!
