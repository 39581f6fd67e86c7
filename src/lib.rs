//! Analytics over an exported chat history: identity codec, content model,
//! message model and the ranking reports built on them.
pub mod analyze;
pub mod chars;
pub mod content;
pub mod identity;
pub mod links;
pub mod message;
pub mod rank;

pub use chars::{chars_of, chars_lt};
pub use content::{count_matches, StructTextEntity, Text, TextEntity, TextType};
pub use identity::{DecodeError, Id};
pub use message::{ChatData, Message, MessageType};
pub use analyze::{Analyzer, LinkRanking, Ranking};
pub use links::LinkError;
