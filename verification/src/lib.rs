//! Verified core of a gym-occupancy scraper.
//!
//! An upstream HTML page embeds live member counts as elements carrying a
//! marker attribute: the attribute's value is the gym's display name and the
//! element's first text chunk is the count. This crate parses such a page,
//! extracts every marked element, and builds a validated mapping from gym
//! name to member count, failing as a whole on any malformed element.
//!
//! The HTML parsing and element selection are done by the `scraper` crate
//! behind a small trusted boundary; everything downstream of it — count
//! parsing, validation, and the construction of the mapping — is verified.

pub mod count;
pub mod extract;
pub mod laws;
pub mod state;
