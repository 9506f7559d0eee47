//! Llama-style model: hyperparameters, weight handles, the plan of the forward
//! pass, the pass itself, and the model that it runs on.

pub mod attention;
pub mod attention_laws;
pub mod config;
pub mod decode;
pub mod forward;
pub mod forward_laws;
pub mod llama;
pub mod plan;
pub mod sharing_laws;
pub mod weights;

pub use crate::model::config::Config;
pub use crate::model::llama::Model;
pub use crate::model::weights::Weights;
