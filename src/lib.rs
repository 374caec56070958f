pub mod text;
pub mod phonology;
pub mod error;
pub mod config;
pub mod generator;
pub mod lexicon;
pub mod sentence;

pub use config::{
    DerivationProcess, DerivationalRule, Grammar, LanguageConfig, LexiconGeneration, Morphology,
    Root, RuleConstraints, SequenceRules,
};
pub use error::GenerationError;
pub use generator::{generator_from_config, WordGenerator};
pub use lexicon::{apply_rule, Lexeme, Lexicon};
pub use phonology::{Phoneme, PhoneticInventory, SyllablePattern};
pub use sentence::assemble_sentence;
