//! A preprocessor for mdbook that expands `{{#diataxis ...}}` directives into a
//! navigation compass and per-chapter tables of contents.

pub mod book;
pub mod config;
pub mod directive;
pub mod expansion;
pub mod markdown;
pub mod paths;
pub mod preprocessor;
pub mod render;

pub use book::{BookItem, Chapter};
pub use config::{Config, ConfigEntry, ConfigError, ConfigValue, Section, SectionField};
pub use preprocessor::{DiataxisPreprocessor, PreprocessError};
