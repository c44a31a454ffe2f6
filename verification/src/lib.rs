//! Semantic splitting of Markdown documents into chunks of bounded size,
//! together with the heading hierarchy that is active at each chunk.

pub mod heading;
pub mod text;
pub mod element;
pub mod markdown;
pub mod ranges;
pub mod trim;
pub mod segment;
pub mod chunk;
pub mod splitter;

pub use element::Element;
pub use heading::{HeadingContext, HeadingLevel};
pub use splitter::{ChunkCharIndex, ChunkCharIndexWithContext, ChunkConfig, IntoChunkConfig, MarkdownSplitter};
