//! A verified todo-list core: an ordered list of items with a done flag,
//! mutated through bucket-relative positional ids, rendered as text, and
//! persisted as a JSON array of `{"item": ..., "done": ...}` objects.
//!
//! The crate works on plain bytes; reading and writing the store file, and
//! command-line handling, live outside it.

pub mod ascii;
pub mod codec;
pub mod model;
pub mod ops;
pub mod render;
pub mod roundtrip;

pub use model::Todo;
pub use model::TodoError;
pub use model::TodoView;
