//! A verified core for a daily currency exchange-rate service.
//!
//! All persisted rates are quoted against a single internal pivot currency.
//! Provider payloads are parsed and triangulated into that pivot, gaps left
//! by non-publishing days are filled forward, and queries convert the stored
//! pivot table into any requested base currency.

pub mod clock;
pub mod config;
pub mod convert;
pub mod date;
pub mod ecb;
pub mod error;
pub mod models;
pub mod nbu;
pub mod parse;
pub mod providers;
pub mod rate;
pub mod service;
pub mod store;
pub mod table;
pub mod text;
