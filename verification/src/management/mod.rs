//! Management-side records: the slide library listing and the secrets store.

pub mod library;
pub mod secrets;
