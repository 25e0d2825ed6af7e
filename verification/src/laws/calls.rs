//! What the functions give back, told of the calls themselves.

pub mod batches;
pub mod checking;
pub mod converting;
pub mod ended;
pub mod execution;
pub mod front;
pub mod locked;
pub mod mail;
pub mod measuring;
pub mod refusals;
pub mod sharing;
pub mod snapshots;
pub mod speculating;
pub mod steps;
pub mod workers;
