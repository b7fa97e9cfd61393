//! A key-value container backed by a growable array of collision chains,
//! with its behaviour stated as contracts over a map model.
pub mod hashtable;
