//! Translation and formatting of pasted lottery results: learned term
//! dictionaries, three substitution passes and a line formatter that groups
//! results into entries under date headers.
pub mod text;
pub mod dictionary;
pub mod passes;
pub mod format;
pub mod pipeline;
pub mod laws;
