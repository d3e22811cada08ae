//! The clipboard archive: what it keeps, how it describes it, and how it talks
//! to its clients.

pub mod capture;
pub mod frame;
pub mod intake;
pub mod kind;
pub mod order;
pub mod outbox;
pub mod proto;
pub mod session;
pub mod settings;
pub mod store;
pub mod text;
