mod config;
pub mod err;
mod error;
pub mod executor;
pub mod laws;
pub mod parser;
mod report;
mod response;
mod statement;
pub mod storage;
mod utils;

pub use config::Config;
pub use error::{Error, ErrorKind};
pub use executor::{handle_statement, Executor};
pub use parser::{literal, parse_sql};
pub use report::Report;
pub use response::Response;
pub use statement::{Keyword, Statement};
pub use storage::data_format::{encode, Record};
pub use storage::Storage;
pub use utils::eq_u8;
