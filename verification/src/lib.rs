//! An S3 simulator over a local directory.
//!
//! Buckets are directories, objects are files with a sidecar of metadata beside
//! them. The library decides; it does no input or output of its own. Each operation
//! of the store asks the disk one question at a time (`exchange`), and ends with an
//! error or with the changes that the disk is to make. The script of an operation
//! says which, for all answers; `disk` models what the disk makes of it, and `laws`
//! states what holds of the store as a whole.

pub mod conditions;
pub mod digits;
pub mod disk;
pub mod error;
pub mod exchange;
pub mod laws;
pub mod meta;
pub mod order;
pub mod paths;
pub mod places;
pub mod store;
pub mod text;
pub mod upload;

pub use crate::conditions::IfConditions;
pub use crate::error::Fals3Error;
pub use crate::meta::ObjectMeta;
pub use crate::store::Store;
