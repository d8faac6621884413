//! Changelog template choices offered to the caller.

use vstd::prelude::*;

verus! {

/// The template a changelog output is rendered with.
#[derive(Clone, Copy, Debug, PartialEq, Eq, Structural)]
pub enum TemplateOption {
    Markdown,
}

impl TemplateOption {
    /// Every template option, in the order offered.
    pub fn values() -> (r: Vec<Self>)
        ensures
            r@.len() == 1,
            r@[0] is Markdown,
    {
        let mut r: Vec<Self> = Vec::new();
        r.push(TemplateOption::Markdown);
        r
    }

    /// The display name of the option.
    pub fn label(&self) -> (r: String)
        ensures
            self is Markdown ==> r@ == "Markdown"@,
    {
        match self {
            TemplateOption::Markdown => "Markdown".to_owned(),
        }
    }
}

} // verus!
