//! Core logic of a Cemuhook DSU server for Steam Controllers: configuration
//! and slot preferences, DSU packet encoding and request parsing, the
//! subscriber table, decoding of controller HID reports, and the decisions
//! of the controller threads (slot routing, read health, open back-off).

pub mod bytes;
pub mod config;
pub mod controllers;
pub mod dsu;
pub mod stats;
pub mod triton;
