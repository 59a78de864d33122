//! A client for the line protocol of time-series databases: a data-point
//! model, its canonical text encoding, and the request and response logic of
//! the HTTP write endpoint, together with the configuration of the weather
//! station service that feeds it.

pub mod text;
pub mod line_protocol;
pub mod client;
pub mod configuration;
pub mod storage;
pub mod theorems;
