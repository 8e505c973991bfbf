//! Execution logic: runnable-block variants, the code-runner state machine, the language
//! vocabulary, the remembered language and the practice-problem model.

pub mod blocks;
pub mod executor;
pub mod lang_pref;
pub mod language;
pub mod practice;
pub mod submit;
