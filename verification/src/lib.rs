pub mod number;
pub mod text;
pub mod numtext;
pub mod value;
pub mod record;
pub mod query;
pub mod result;
pub mod db;
pub mod sql;
pub mod paths;
pub mod odbc;
pub mod cli;
pub mod catalog;
pub mod http;
pub mod laws;
pub mod order;

pub use crate::db::{DbStats, YamlDb, YamlDbError};
pub use crate::query::QueryOp;
pub use crate::record::Record;
pub use crate::result::QueryResult;
pub use crate::value::Value;
