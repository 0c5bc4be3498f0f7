//! What holds of the library as a whole.

pub mod acceptance;
pub mod advertised;
pub mod assembly;
pub mod batches;
pub mod chunks;
pub mod compact;
pub mod completion;
pub mod conversation;
pub mod explanations;
pub mod history;
pub mod intake;
pub mod keys;
pub mod outcome;
pub mod records;
pub mod references;
pub mod refusals;
pub mod repeats;
pub mod replay;
pub mod script;
pub mod stream;
pub mod thoughts;
pub mod tools;
pub mod values;
