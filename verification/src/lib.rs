//! Text transformations in the style of the mocking-meme: alternating the
//! case of letters, randomizing the case of letters, and spreading text out
//! with spaces, together with the small decisions a command-line front end
//! needs (assembling words, detecting a request for standard input, and
//! re-assembling UTF-8 text that arrives in arbitrary byte chunks).

pub mod cli;
pub mod laws;
pub mod stream;
mod text;
pub mod transform;
pub mod unicode;

pub use cli::join_words;
pub use cli::transform_text;
pub use cli::wants_stdin;
pub use stream::Utf8Assembler;
pub use transform::alternate;
pub use transform::randomize;
pub use transform::spaceify;
