//! Sessions and the cases that are passed on.

pub mod case_contents;
pub mod persist;
pub mod portable_case;
pub mod stored_rows;
