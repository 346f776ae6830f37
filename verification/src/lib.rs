pub mod errors;
pub mod help;
pub mod laws;
pub mod model;
pub mod parsing;
pub mod shell;
pub mod sorting;
pub mod text;
pub mod value_laws;
