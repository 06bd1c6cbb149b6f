//! What the operations promise, said of their calls alone: each law takes the
//! arguments and the result of a call, or of several, and says how they relate, in
//! terms of numbers, texts, bytes and documents.

pub mod lanes;
pub mod measures;
pub mod operator;
pub mod requests;
pub mod setup;
pub mod words;
