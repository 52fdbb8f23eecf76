//! Utilities for writing mdBook preprocessors: a range-replacement engine
//! over chapter text, an asset link resolver, a chapter collector, a
//! processing driver, and a shared-asset materialization planner.

pub mod assets;
pub mod book;
pub mod errors;
pub mod html;
pub mod paths;
pub mod processor;
pub mod replace;
pub mod resolve;

pub use assets::MaterializationPlan;
pub use book::Chapter;
pub use errors::Error;
pub use html::HtmlElementBuilder;
pub use processor::{Asset, BuildContext, ChapterSource, SimplePreprocessor};
pub use replace::Replacement;
