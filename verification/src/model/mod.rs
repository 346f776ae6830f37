pub mod commands;
pub mod database;
pub mod decimal;
pub mod field_map;
pub mod table;

pub use commands::{Command, Create, Delete, Insert, Read, Save, Select};
pub use database::{AnyDatabase, Database, DatabaseKey};
pub use decimal::Decimal;
pub use field_map::FieldMap;
pub use table::{Record, Table, Value, ValueType};
