//! What the commands compute and print.

pub mod run;
