//! A document repository: text documents with tags, one PDF attachment per
//! document, and an API-key gate in front of every operation.

pub mod attachments;
pub mod auth;
pub mod documents;
pub mod error;
pub mod object_id;
pub mod text;
