//! Admission, deduplication and chat-bridge logic of a personal-agent HTTP
//! gateway, with every rule stated as a contract and proved.

pub mod admission;
pub mod channels;
pub mod chat;
pub mod clock;
pub mod context;
pub mod desktop;
pub mod digest;
pub mod dispatch;
pub mod idempotency;
pub mod limiter;
pub mod media;
pub mod order;
pub mod pairing;
pub mod reminder;
pub mod sandbox;
pub mod signature;
pub mod text;
pub mod tools;
pub mod worker;
