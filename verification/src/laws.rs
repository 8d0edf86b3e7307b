//! What holds of the library as a whole, stated over what goes in and what comes out.

pub mod blocks;
pub mod code;
pub mod content;
pub mod conversion;
pub mod editor;
pub mod events;
pub mod links;
pub mod markers;
pub mod marks;
pub mod metadata;
pub mod names;
pub mod shown;
pub mod state;
pub mod taken_over;
pub mod text;
