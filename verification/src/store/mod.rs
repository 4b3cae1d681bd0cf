pub mod bplus_tree;
pub mod c4db_builder;
pub mod c4db_store;
pub mod command_store;
pub mod formats;
pub mod index_laws;
pub mod normalize;
pub mod scan_laws;
pub mod store_laws;

pub use c4db_builder::{build_store_files, prepare_records};
pub use c4db_store::C4DbCommandStore;
pub use command_store::{CommandRecord, CommandStore};
