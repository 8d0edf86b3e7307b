//! Live preview of Markdown documents: the conversion of parser events into a flat,
//! root-aware event list, the layout of a preview on top of it, and the decisions an editor
//! takes to show that layout.

pub mod autolink;
pub mod block_text;
pub mod blocks;
pub mod cmark;
pub mod convert;
pub mod event;
pub mod footnotes;
pub mod headings;
pub mod laws;
pub mod layout;
pub mod live;
pub mod markers;
pub mod nesting;
pub mod offsets;
pub mod order;
pub mod parse;
pub mod preview;
pub mod roots;
pub mod scan;
pub mod session;
pub mod span;
