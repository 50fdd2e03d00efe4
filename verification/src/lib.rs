//! An in-memory key-value store with Create/Read/Update/Delete semantics and
//! paginated, sortable enumeration, verified against a map model.

pub mod laws;
pub mod listing;
pub mod page;
pub mod record;
pub mod store;
pub mod text;

pub use page::Page;
pub use page::Sort;
pub use record::Record;
pub use store::InMemoryStorage;
pub use store::InMemoryStorageError;
