//! Watching syndication feeds for new entries.
//!
//! A list of feeds is written as template lines, which `template` expands
//! into feed identifiers. Each feed is an XML document, of which `outline`
//! reads the outline and `item` the entries, in RSS or Atom form. `cache`
//! remembers which entries have been seen within a sliding window, and
//! `cycle` decides, event by event, what to fetch, what to announce and when
//! to sleep. `config` reads the command line.

pub mod cache;
pub mod config;
pub mod cycle;
pub mod dates;
pub mod item;
pub mod outline;
pub mod radix;
pub mod template;
pub mod text;
