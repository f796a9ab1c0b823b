//! Decision logic of a desktop control centre for Debian-family systems.

pub mod apps;
pub mod big;
pub mod cleanup;
pub mod double;
pub mod fill;
pub mod kernels;
pub mod log;
pub mod metrics;
pub mod number;
pub mod order;
pub mod repos;
pub mod scan;
pub mod shell;
pub mod single;
pub mod size;
pub mod startup;
pub mod system;
pub mod text;
pub mod theme;
pub mod updates;
pub mod util;
pub mod view;
