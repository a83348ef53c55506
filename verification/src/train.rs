//! Running a model: the decisions of the loop and what it leaves on disk.

pub mod checkpoint;
pub mod optim;
pub mod run;
pub mod ui;
