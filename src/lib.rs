//! Messaging core of an XMPP chat client: the message event reducer, the
//! history pagination and catch-up engines, room state and the end-to-end
//! encryption composition.

pub mod account;
pub mod encryption;
pub mod history;
pub mod id_index;
pub mod message;
pub mod message_like;
pub mod room;
