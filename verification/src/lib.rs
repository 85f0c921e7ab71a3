//! Parsing of the log files of a sorting and unloading line into typed
//! records, grouped by the train car or the device they belong to.
//!
//! A file is handed over as its text. [`train::parse_train_log`] reads the
//! train position lines of a train log and gives the records of each train,
//! sorted by time. [`device::parse_device_log`] reads the telemetry,
//! direction and replenish lines of a device log and gives the events of
//! each device, in the order of the lines. A line that is taken for a record
//! and gives none makes the whole parse fail, with an [`error::ParseError`]
//! that names the line.
//!
//! Every function has a contract over the characters of the text. What each
//! parser returns is a function of the text alone: [`train::train_log`] and
//! [`device::device_log`].

pub mod device;
pub mod error;
pub mod group;
pub mod line_text;
pub mod number;
pub mod sort;
pub mod text;
pub mod time;
pub mod tokens;
pub mod train;
