pub mod db;
pub mod json;
pub mod storage;

pub use db::DbState;
pub use storage::{
    delete_connection, get_connections, save_connection, SavedConnection, StorageState, StoreError,
};
