//! The text that is being composed, as the application shows it.

use vstd::prelude::*;
use crate::lists::add_item;
use crate::text::char_count;

verus! {

/// How a part of the text is marked.
#[derive(Debug, Clone, Copy, PartialEq, Eq, Structural)]
pub enum AttributeType {
    Underline,
    Highlight,
}

/// The mark on the characters `start..end`.
#[derive(Debug, Clone, Copy, PartialEq, Eq, Structural)]
pub struct PreeditAttribute {
    pub start: usize,
    pub end: usize,
    pub attr_type: AttributeType,
}

#[verifier::ext_equal]
pub struct AttributeView {
    pub start: int,
    pub end: int,
    pub attr_type: AttributeType,
}

impl DeepView for PreeditAttribute {
    type V = AttributeView;

    open spec fn deep_view(&self) -> AttributeView {
        AttributeView { start: self.start as int, end: self.end as int, attr_type: self.attr_type }
    }
}

/// A text with its caret and its marks, counted in characters.
pub struct Preedit {
    pub text: String,
    pub caret: usize,
    pub attributes: Vec<PreeditAttribute>,
}

#[verifier::ext_equal]
pub struct PreeditView {
    pub text: Seq<char>,
    pub caret: int,
    pub attributes: Seq<AttributeView>,
}

impl DeepView for Preedit {
    type V = PreeditView;

    open spec fn deep_view(&self) -> PreeditView {
        PreeditView {
            text: self.text@,
            caret: self.caret as int,
            attributes: self.attributes.deep_view(),
        }
    }
}

impl Clone for Preedit {
    fn clone(&self) -> (r: Self)
        ensures
            r.deep_view() == self.deep_view(),
    {
        let attributes = self.attributes.clone();
        assert(attributes.deep_view() =~= self.attributes.deep_view());
        Preedit { text: self.text.clone(), caret: self.caret, attributes }
    }
}

/// A text without marks, the caret behind it.
pub open spec fn unmarked(text: Seq<char>) -> PreeditView {
    PreeditView { text, caret: text.len() as int, attributes: Seq::empty() }
}

/// A text underlined as a whole, the caret at `caret`. An empty text has no
/// mark.
pub open spec fn underlined(text: Seq<char>, caret: int) -> PreeditView {
    PreeditView {
        text,
        caret,
        attributes: if text.len() == 0 {
            Seq::empty()
        } else {
            seq![
                AttributeView {
                    start: 0,
                    end: text.len() as int,
                    attr_type: AttributeType::Underline,
                },
            ]
        },
    }
}

impl Preedit {
    /// No text at all.
    pub fn new() -> (r: Self)
        ensures
            r.deep_view() == unmarked(Seq::empty()),
    {
        let attributes: Vec<PreeditAttribute> = Vec::new();
        assert(attributes.deep_view() =~= Seq::empty());
        Preedit { text: String::new(), caret: 0, attributes }
    }

    /// A text without marks, the caret behind it.
    pub fn with_text(text: &str) -> (r: Self)
        ensures
            r.deep_view() == unmarked(text@),
    {
        let attributes: Vec<PreeditAttribute> = Vec::new();
        assert(attributes.deep_view() =~= Seq::empty());
        Preedit { text: text.to_owned(), caret: char_count(text), attributes }
    }

    /// An underlined text, the caret at `caret`.
    pub fn underlined_at(text: &str, caret: usize) -> (r: Self)
        ensures
            r.deep_view() == underlined(text@, caret as int),
    {
        let n: usize = char_count(text);
        let mut attributes: Vec<PreeditAttribute> = Vec::new();
        assert(attributes.deep_view() =~= Seq::empty());
        if n > 0 {
            add_item(
                &mut attributes,
                PreeditAttribute { start: 0, end: n, attr_type: AttributeType::Underline },
            );
        }
        Preedit { text: text.to_owned(), caret, attributes }
    }

    /// An underlined text, the caret behind it.
    pub fn with_text_underlined(text: &str) -> (r: Self)
        ensures
            r.deep_view() == underlined(text@, text@.len() as int),
    {
        Preedit::underlined_at(text, char_count(text))
    }

    pub fn text(&self) -> (r: &str)
        ensures
            r@ == self.deep_view().text,
    {
        self.text.as_str()
    }

    pub fn caret(&self) -> (n: usize)
        ensures
            n == self.deep_view().caret,
    {
        self.caret
    }

    pub fn attributes(&self) -> (r: &Vec<PreeditAttribute>)
        ensures
            r.deep_view() == self.deep_view().attributes,
    {
        &self.attributes
    }
}

} // verus!
