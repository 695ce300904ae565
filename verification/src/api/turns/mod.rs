//! The operations, one by one: what each is asked with, what it answers and
//! what the frontend is told.

pub mod corpus;
pub mod history;
pub mod writing;
pub mod house;
pub mod proposals;
pub mod threads;
