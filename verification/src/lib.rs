//! A small persistent key-value configuration store.
//!
//! Settings are grouped under categories and kept in memory as text. The
//! store renders them as a categorised, INI-like document and reads such a
//! document back. Reading and writing the file itself is left to the caller:
//! the library works on the text of the file.

pub mod text;
pub mod setting;
pub mod table;
pub mod order;
pub mod line_ending;
pub mod codec;
pub mod config;
pub mod path;
pub mod round_trip;
pub mod shape;
pub mod necessity;

pub use config::Config;
pub use line_ending::LineEnding;
pub use setting::Setting;
