//! A verified adapter between a response-style agent history and a streaming
//! chat-completions provider.

pub mod calls;
pub mod compact;
pub mod completion;
pub mod dispatch;
pub mod error;
pub mod event;
pub mod history;
pub mod json;
pub mod laws;
pub mod message;
pub mod recovery;
pub mod request;
pub mod stream;
pub mod text;
pub mod tools;
pub mod views;
pub mod wire;
