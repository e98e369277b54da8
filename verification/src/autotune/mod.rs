//! What automatic tuning needs to know of the wideband: whether a reading can
//! be trusted, and how late it comes.

pub mod afr_validity;
pub mod delay_measure;
pub mod delay_table;
