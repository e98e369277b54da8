//! The verified core of an engine-tuning application: wideband calibration,
//! AFR validity, transport-delay measurement, and what its commands decide.

pub mod autotune;
pub mod calibration;
pub mod commands;
pub mod machine;
pub mod num;
pub mod text;
