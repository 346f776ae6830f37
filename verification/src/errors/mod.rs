pub mod database_result;
pub mod execution_err;
pub mod messages;
pub mod parsing_err;

pub use database_result::{DatabaseErr, DatabaseResult, StatementErr};
pub use execution_err::{ExecutionErr, ExecutionResult};
pub use parsing_err::{ParsingErr, ParsingResult};
