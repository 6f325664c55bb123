//! What the routes of the server decide and answer.
pub mod downloaders;
pub mod galleries;
pub mod photos;
pub mod tags;
