//! Step-wise sorting engines: each call to `step` performs one comparison (and at most
//! one swap), so that a caller can show a sort as it progresses.

pub mod sorters;
pub mod bubble;
pub mod quick;
pub mod bogo;
pub mod select;
