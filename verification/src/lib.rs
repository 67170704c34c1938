//! Suggestion engine for shell autosuggestions: sources of suggestions,
//! their ordering by priority, and the text and path logic each source uses.

pub mod builder;
pub mod text;
pub mod paths;
pub mod util;
pub mod sources;
