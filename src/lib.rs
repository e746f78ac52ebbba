//! Serial serum-creatinine tracking with acute-kidney-injury staging.
//!
//! Creatinine levels are held as whole thousandths of a mg/dL, so that every
//! threshold of the staging rules is an exact integer comparison.
pub mod calendar;
pub mod database;
pub mod detection;
pub mod environment;
pub mod patient;
