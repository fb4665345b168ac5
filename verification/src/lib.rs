//! Recording and analysis of public-transit realtime delay feeds.
//!
//! The library pairs realtime trip-update snapshots with a static schedule,
//! correlates each stop-time event against the scheduled moment, maintains
//! newest-wins observation records, and builds empirical delay-distribution
//! curves over route variants, stop pairs and recurring time slots.

pub mod analyser;
pub mod cache;
pub mod calendar;
pub mod correlator;
pub mod curves;
pub mod event_type;
pub mod feed;
pub mod filenames;
pub mod importer;
pub mod schedule;
pub mod store;
pub mod time_slots;
pub mod util;

pub use time_slots::TimeSlot;
