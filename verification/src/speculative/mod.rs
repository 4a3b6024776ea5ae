//! Search by a cheap draft and an exact check, with a controller for the size of the draft.
pub mod dataset;
pub mod draft;
pub mod search;
