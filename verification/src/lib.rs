//! Tactical network resilience engine for a multi-agent autonomy simulation.
//!
//! The crate models how radio links between mobile agents degrade under
//! electronic-warfare jamming and how the resulting communications graph
//! fragments or stays connected.  All physical quantities are carried as
//! scaled integers (milli-dB, parts per million, millimetres, attowatts):
//! the linear formulas are exact, and the logarithmic and exponential
//! curves run through verified fixed-point helpers whose contracts state
//! exactly what they compute.

pub mod antenna;
pub mod backend;
pub mod fpv;
pub mod jamming;
pub mod metrics;
pub mod network;
pub mod numeric;
pub mod partition;
pub mod propagation;
pub mod protocol;
pub mod scheduler;
pub mod sensor;
pub mod spectrum;
pub mod units;
pub mod vehicle;
