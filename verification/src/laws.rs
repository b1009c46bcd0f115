//! What holds of the store as a whole, on a disk that works.

pub mod buckets;
pub mod copies;
pub mod errors;
pub mod etags;
pub mod ground;
pub mod keys;
pub mod listing;
pub mod locking;
pub mod multipart;
pub mod names;
pub mod objects;
pub mod pages;
pub mod preconditions;
pub mod rest;
pub mod results;
pub mod rules;
pub mod uploads;
pub mod worlds;
pub mod writes;
