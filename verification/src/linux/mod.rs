//! Naming conventions of Linux block devices.

pub mod block;
