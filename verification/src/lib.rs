//! Site builder library for the Fink language website: syntax highlighting of
//! Fink snippets, Markdown post-processing, playground links, SVG snippet
//! rendering and the text formats the builder reads.

pub mod highlight;
pub mod markdown;
pub mod playground;
pub mod serve;
pub mod site;
pub mod svg;
pub mod text;
