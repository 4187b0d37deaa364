//! Semi-supervised constrained clustering over boolean feature vectors.
//!
//! A model owns a labeled dataset, trains a constrained k-modes style
//! relocation over Hamming distance, and afterwards answers whether two
//! vectors fall to the same cluster center.
pub mod types;
pub mod hamming;
pub mod engine;
pub mod model;

pub use types::{BoolPoint, ConnectEnum, CountJob, LabelBoolPoint, LabelEnum, SckmError, TaskState, Trained};
pub use model::{ModelView, SCKMModel, SCKMModelConstructor, SCKM};

