//! The interactive interface: [`app`] holds every decision, [`draw`] lays out what
//! is on the screen, and [`input`] reduces what the terminal reports to what the
//! interface cares about. None of it touches a terminal. What holds of it whatever
//! happens stands in [`promises`], [`keys`], [`list`], [`screen`], [`rule`],
//! [`columns`] and [`agreement`].
pub mod agreement;
pub mod app;
pub mod columns;
pub mod draw;
pub mod input;
pub mod keys;
pub mod list;
pub mod promises;
pub mod rule;
pub mod screen;
