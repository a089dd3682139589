//! Core logic of the meeting flyby notifier: title cleaning, ICS reading,
//! the flyby queue and its scheduling decisions, and the small state
//! machines around the calendar service.

pub mod text;
pub mod calendar;
pub mod scheduler;
pub mod scheduler_laws;
pub mod service;
pub mod window;
pub mod cmd;
pub mod tick;
pub mod eventkit;
pub mod ics;
pub mod feed_url;
pub mod tray;
pub mod conf;
pub mod overlay_laws;
pub mod loop_laws;
