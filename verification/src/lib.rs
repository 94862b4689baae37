//! Grouping, selection and transfer-queue logic for managing the music on an
//! MTP player, with its settings file format.

pub mod text;
pub mod order;
pub mod mtp;
pub mod music;
pub mod library;
pub mod queue;
pub mod settings;
pub mod status;
pub mod session;
pub mod batch;
pub mod tree_laws;
