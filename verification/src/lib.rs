//! A generational arena: owners, weak handles that are checked against a
//! generation counter, and guards that enforce shared or exclusive access at
//! run time.

pub mod gen_ref;
pub mod laws;
pub mod model;
pub mod pin_signal;
pub mod reactive;
pub mod signal;
