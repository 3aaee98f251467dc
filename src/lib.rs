//! Room availability from calendar feeds.
//!
//! Each room has a set of busy intervals, rebuilt from the calendar feeds of the
//! resources it belongs to. `interval` derives the free intervals that complement
//! them, `room` the status of a room at an instant, `catalog` keeps the rooms and
//! applies the outcome of each feed, `feed` turns a calendar document into busy
//! records, `filter` selects rooms by name and `order` orders names.
use vstd::prelude::*;

pub mod catalog;
pub mod feed;
pub mod filter;
pub mod interval;
pub mod order;
pub mod room;
