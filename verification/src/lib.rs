//! Per-request channel routing for a pool of quota-limited API keys.

pub mod choice;
pub mod choice_laws;
pub mod clock;
pub mod double;
pub mod fingerprint;
pub mod fingerprint_laws;
pub mod history;
pub mod json;
pub mod proxy;
pub mod proxy_laws;
pub mod score_laws;
mod seqs;
pub mod state;
pub mod state_laws;
pub mod status;
pub mod text;
pub mod view;
