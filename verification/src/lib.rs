//! A paper-trading node: market rules, a simulated broker and the tools around it.
pub mod accounts;
pub mod alerts;
pub mod archive;
pub mod broker;
pub mod candles;
pub mod cli;
pub mod dates;
pub mod decimal;
pub mod domain;
pub mod feed;
pub mod fundamentals;
pub mod fx;
pub mod indicators;
pub mod json;
pub mod ledger;
pub mod market;
pub mod performance;
pub mod persist;
pub mod record;
pub mod screen;
pub mod settings;
pub mod sim;
pub mod stats;
pub mod store;
pub mod subs;
pub mod table;
pub mod text;
pub mod time;
pub mod tools;
pub mod venue;
pub mod web;
