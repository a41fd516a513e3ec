//! Fraud scoring of card transactions: request parsing, calendar features,
//! a compact inverted-file index of quantised vectors and its search, and the
//! decisions of the server, the load balancer and the offline tools.
pub mod balancer;
pub mod bytes;
pub mod calendar;
pub mod config;
pub mod connection;
pub mod distance;
pub mod document_texts;
pub mod documents;
pub mod evaluation;
pub mod features;
pub mod grammar;
pub mod http;
pub mod index;
pub mod index_laws;
pub mod json;
pub mod normalization;
pub mod payload_fields;
pub mod payload_laws;
pub mod preprocessing;
pub mod probing;
pub mod probing_laws;
pub mod read_documents;
pub mod rounding;
pub mod search;
pub mod search_laws;
pub mod selection;
pub mod server;
pub mod single;
pub mod stream_laws;
pub mod wire;
