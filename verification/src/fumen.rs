//! The document type.

use crate::format::{start_page, FumenModel};
use crate::page::Page;
use vstd::prelude::*;

verus! {

/// A document: its pages in order, and one flag for the whole of it, which
/// the text keeps in its first page.
#[derive(Clone, Debug, PartialEq, Eq, Hash)]
pub struct Fumen {
    pub pages: Vec<Page>,
    pub guideline: bool,
}

impl View for Fumen {
    type V = FumenModel;

    open spec fn view(&self) -> FumenModel {
        FumenModel {
            pages: Seq::new(self.pages@.len(), |i: int| self.pages@[i]@),
            guideline: self.guideline,
        }
    }
}

impl Default for Fumen {
    fn default() -> (fumen: Fumen)
        ensures
            fumen@.pages.len() == 0,
            fumen@.guideline,
    {
        Fumen { pages: Vec::new(), guideline: true }
    }
}

impl Fumen {
    /// Appends a page with the default content that follows the last page,
    /// or the blank page to a document without pages, and hands it out to be
    /// filled in.
    pub fn add_page(&mut self) -> (page: &mut Page)
        requires
            old(self).pages.len() > 0 ==> old(self).pages@.last()@.can_advance(),
        ensures
            page@ == start_page(
                if old(self).pages.len() > 0 {
                    Some(old(self).pages@.last()@)
                } else {
                    None
                },
            ),
            final(self).pages@ == old(self).pages@.push(*final(page)),
            final(self).guideline == old(self).guideline,
    {
        let n: usize = self.pages.len();
        let next = if n > 0 {
            self.pages[n - 1].next_page()
        } else {
            Page::default()
        };
        self.pages.push(next);
        &mut self.pages[n]
    }
}

} // verus!
