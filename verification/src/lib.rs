//! Verified client core for a hosted email provider's REST API.
//!
//! The library covers everything the client decides or computes: building the
//! authenticated requests, decoding the JSON response documents into plain
//! data, and the read-modify-write updates of a mailbox's alias list. The
//! network transport itself stays outside the library.

pub mod client;
pub mod dto;
pub mod json;

pub use client::GandiEmailAPI;
pub use dto::Mailbox;
pub use dto::MailboxDetail;
