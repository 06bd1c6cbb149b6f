//! The core of a rate-limit-aware proxy in front of an OpenAI-compatible
//! upstream: one queue for all clients, one lane per upstream key, and never
//! more requests per key than the upstream allows.
//!
//! Everything that is decided is decided here and proved here. What has to be
//! sent, received, waited for or stored is handed out as plain values, and what
//! came of it is handed back in.

// Lanes, the queue in front of them, and the pressure of single models.
pub mod dispatch;
pub mod governor;
pub mod pool;
pub mod time;

// Requests, from the client's key to the last byte of the answer.
pub mod clients;
pub mod errors;
pub mod proxy;
pub mod quality;
pub mod request;
pub mod sse;
pub mod stream;
pub mod usage;

// The operator's side: login, metrics history, settings.
pub mod auth;
pub mod config;
pub mod history;
pub mod labels;
pub mod pages;
pub mod password;
pub mod sessions;
pub mod settings;
pub mod startup;

// Text, bytes and documents.
pub mod base64;
pub mod crypto;
pub mod digits;
pub mod form;
pub mod json;
pub mod text;
pub mod utf8;

// What all of it promises.
pub mod laws;
