//! Two line filters: a printer that can number lines, and a collapser of
//! repeated consecutive lines.
pub mod catr;
pub mod source;
pub mod text;
pub mod uniqr;
