//! Errors found while reading a query.
use vstd::prelude::*;
use crate::model::table::ValueType;

verus! {

pub type ParsingResult<T> = Result<T, ParsingErr>;

/// An error found while reading a query.
#[derive(Debug, Clone)]
pub enum ParsingErr {
    /// The query does not follow the grammar; the position is that of the first
    /// character (counted in characters) that could not be read.
    SyntaxError(usize),
    /// A number that cannot be held, with the type it was read as.
    ParsingFromString(String, ValueType),
    /// A field named twice in one statement.
    RepeatedColumn(String),
    /// `LIMIT` or `ORDER_BY` given twice in one `SELECT`.
    RepeatedModifier,
}

/// The model of a reading error.
pub enum ParsingErrView {
    SyntaxError(nat),
    ParsingFromString(Seq<char>, ValueType),
    RepeatedColumn(Seq<char>),
    RepeatedModifier,
}

impl View for ParsingErr {
    type V = ParsingErrView;

    open spec fn view(&self) -> ParsingErrView {
        match self {
            ParsingErr::SyntaxError(p) => ParsingErrView::SyntaxError(*p as nat),
            ParsingErr::ParsingFromString(s, t) => ParsingErrView::ParsingFromString(s@, *t),
            ParsingErr::RepeatedColumn(s) => ParsingErrView::RepeatedColumn(s@),
            ParsingErr::RepeatedModifier => ParsingErrView::RepeatedModifier,
        }
    }
}

/// The kind of statement, as shown by the reader.
#[derive(Debug, Clone, Copy, PartialEq, Eq, Structural)]
pub enum StatementErr {
    NotSpecified,
    Create,
    Insert,
}

pub open spec fn reader_statement_tag(s: StatementErr) -> Seq<char> {
    match s {
        StatementErr::NotSpecified => "_"@,
        StatementErr::Create => "CREATE"@,
        StatementErr::Insert => "INSERT"@,
    }
}

impl StatementErr {
    /// The tag of the statement kind.
    pub fn to_string(&self) -> (r: String)
        ensures
            r@ == reader_statement_tag(*self),
    {
        match self {
            StatementErr::NotSpecified => String::from_str("_"),
            StatementErr::Create => String::from_str("CREATE"),
            StatementErr::Insert => String::from_str("INSERT"),
        }
    }
}

} // verus!
