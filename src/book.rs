//! The document tree: chapters with their sub-items, as the rewrite reads them.

use vstd::prelude::*;

verus! {

/// A chapter of the book.
pub struct Chapter {
    /// The name shown in tables of contents.
    pub name: String,
    /// The markdown source, rewritten in place.
    pub content: String,
    /// The file the chapter comes from, relative to the book's source
    /// directory; `None` for a draft chapter, which has no file.
    pub source_path: Option<String>,
    /// The items nested under this chapter, in the order authored.
    pub sub_items: Vec<BookItem>,
}

/// An item of the book's outline.
pub enum BookItem {
    Chapter(Chapter),
    Separator,
    PartTitle(String),
}

} // verus!
