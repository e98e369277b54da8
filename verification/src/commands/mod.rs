//! What the application's commands decide, apart from the connection, the
//! locks and the log that they work on.

pub mod sensor_calibration;
pub mod tune_info;
pub mod w2_probe;
