pub mod application;
pub mod chars;
pub mod cli;
pub mod collector;
pub mod document;
pub mod error;
pub mod markup;
pub mod opt;
pub mod split_words;
pub mod words;

pub use application::Application;
pub use cli::Args;
pub use collector::DocumentStats;
pub use collector::stats::Stats;
pub use error::Error;
