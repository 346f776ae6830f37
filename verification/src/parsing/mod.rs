pub mod grammar;
pub mod grammar_laws;
pub mod lexer;
pub mod parser;
pub mod replay;
pub mod reread;
pub mod round_trip;
pub mod runner;
pub mod statements;

pub use parser::SQLParser;
pub use runner::{Action, Outcome, QueryRun};
pub use statements::{CreateSt, DeleteSt, InsertSt, LimitSt, OrderBySt, ReadSt, SaveSt, SelectSt, Statement};
