//! Departure selection, configuration validation and PID request/response
//! framing for the `pidjezdy` command-line tool.

pub mod text;
pub mod time;
pub mod departure;
pub mod config;
pub mod validation;
pub mod request;
pub mod query;
pub mod response;
pub mod body;
pub mod presentation;
pub mod selection;
pub mod selection_laws;
pub mod report;
pub mod cli;
pub mod cache;
