//! The pure core of the Synapse reader client: editorial parsing, catalog navigation,
//! search ranking, the code-runner state machine and the small persisted-preference codecs.

pub mod api;
pub mod blog;
pub mod catalog;
pub mod execution;
pub mod identity;
pub mod quiz;
pub mod router;
pub mod search;
pub mod seo;
pub mod shell;
pub mod text;
pub mod wire;
