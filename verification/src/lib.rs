//! A rule compiler and lineage-propagation engine for constructed languages.
//!
//! Languages are arranged in a derivation graph. Each language carries an
//! indexed, soft-deletable vocabulary and three ordered rule collections that
//! turn a word's mnemonic spelling into its surface spelling, its phonetic
//! transcription, and a descendant language's mnemonic. Declarative sound
//! changes, possibly parameterized by phoneme categories, are compiled into
//! executable text substitutions, and a derivation engine replays an ancestor
//! vocabulary through those substitutions while preserving word lineage.

pub mod babel;
pub mod error;
pub mod language;
pub mod pattern;
pub mod pos;
pub mod sca;
pub mod text;
pub mod word;

pub use babel::Babel;
pub use error::BabelError;
pub use language::Language;
pub use pattern::{Replace, Substitute};
pub use pos::PoS;
pub use sca::{SoundChange, SCA};
pub use word::{Coordinate, Word};
