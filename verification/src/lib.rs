//! Icon shortcodes for mdBook: the text rules that find `:prefix-name:`
//! shortcodes in Markdown and the rules that turn Iconify data into inline SVG.
use vstd::prelude::*;

pub mod text;
pub mod shortcode;
pub mod markdown;
pub mod requests;
pub mod aliases;
pub mod collection;
pub mod svg;
pub mod book;
pub mod source;

verus! {

/// Why a shortcode could not be turned into an icon.
#[derive(Debug)]
pub enum IconError {
    /// Following the user aliases of this shortcode comes back to an alias
    /// already followed.
    UserAliasCycle(String),
    /// Following the aliases of an icon collection comes back to this name.
    IconAliasCycle(String),
    /// The collection has neither an icon nor an alias of this name.
    MissingIcon(String),
}

} // verus!
