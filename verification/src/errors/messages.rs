//! The text shown for each error.
use vstd::prelude::*;
use crate::errors::database_result::{DatabaseErr, statement_tag};
use crate::errors::execution_err::ExecutionErr;
use crate::errors::parsing_err::ParsingErr;
use crate::model::decimal::decimal_query_text;
use crate::model::table::{Value, ValueView, type_query_name};
use crate::text::{int_text, nat_text, u64_to_string, i64_to_string};

verus! {

/// How a value is shown inside an error message: its kind, then the value.
pub open spec fn value_debug(v: ValueView) -> Seq<char> {
    match v {
        ValueView::Bool(b) => "Bool("@ + (if b { "true"@ } else { "false"@ }) + ")"@,
        ValueView::Int(i) => "Int("@ + int_text(i as int) + ")"@,
        ValueView::Float(d) => "Float("@ + decimal_query_text(d) + ")"@,
        ValueView::String(s) => "String(\""@ + s + "\")"@,
    }
}

/// The message of a reading error.
pub open spec fn parsing_message(e: ParsingErr) -> Seq<char> {
    match e {
        ParsingErr::SyntaxError(p) => "Syntax error at character "@ + nat_text(p as nat)
            + " (format of command is incorrect)"@,
        ParsingErr::ParsingFromString(s, t) => "Couldnt parse value '"@ + s@ + "' to "@ + type_query_name(t),
        ParsingErr::RepeatedColumn(c) => "Column '"@ + c@ + "' appeared more than once"@,
        ParsingErr::RepeatedModifier => "Modifier appeared more than once"@,
    }
}

/// The message of an execution error.
pub open spec fn execution_message(e: ExecutionErr) -> Seq<char>
    decreases e,
{
    match e {
        ExecutionErr::TableAlreadyPresent(n) => "Database already has table '"@ + n@ + "'"@,
        ExecutionErr::NoPK(n) => "No definition for primary key '"@ + n@ + "'"@,
        ExecutionErr::WrongPKType { expected, got } => "Wrong Primary Key type expected '"@ + type_query_name(expected)
            + "' got '"@ + type_query_name(got) + "'"@,
        ExecutionErr::NoTable(n) => "No table '"@ + n@ + "' in database'"@,
        ExecutionErr::WrongArgLen { table, got, expected } => "Bad amount of arguments in '"@ + table@
            + "', expected "@ + nat_text(expected as nat) + " but got "@ + nat_text(got as nat),
        ExecutionErr::BadType { field, got, expected } => "Bad type for '"@ + field@ + "' , expected "@
            + type_query_name(expected) + " but got "@ + type_query_name(got),
        ExecutionErr::NoDef(n) => "No field definition in schema for "@ + n@,
        ExecutionErr::RepeatedColumn(n) => "Column '"@ + n@ + "' appeared more than once"@,
        ExecutionErr::RepeatedRecord(v) => "Value '"@ + value_debug(v@) + "' appeared more than once"@,
        ExecutionErr::CouldntParse(k, t) => "Couldnt parse value '"@ + k@ + "' to "@ + type_query_name(t),
        ExecutionErr::NoKeyStr(k, t) => "No record with key '"@ + k@ + "' in table '"@ + t@ + "'"@,
        ExecutionErr::BadFile(p) => "Couldnt use file '"@ + p@ + "'"@,
        ExecutionErr::ExecutingError(inner) => "Error while executing file: "@ + database_message(*inner),
    }
}

/// The message of an error of a query: the kind of statement in brackets, then the error.
pub open spec fn database_message(e: DatabaseErr) -> Seq<char>
    decreases e,
{
    match e {
        DatabaseErr::ParsingError { error, statement } => "["@ + statement_tag(statement) + "] "@ + parsing_message(error),
        DatabaseErr::ExecutionError { error, statement } => "["@ + statement_tag(statement) + "] "@
            + execution_message(error),
    }
}

fn value_debug_text(v: &Value) -> (s: String)
    ensures
        s@ == value_debug(v@),
{
    let mut s = String::new();
    match v {
        Value::Bool(b) => {
            s.append("Bool(");
            s.append(if *b { "true" } else { "false" });
            s.append(")");
            assert(s@ =~= value_debug(v@));
        },
        Value::Int(i) => {
            s.append("Int(");
            let t = i64_to_string(*i);
            s.append(t.as_str());
            s.append(")");
            assert(s@ =~= value_debug(v@));
        },
        Value::Float(d) => {
            s.append("Float(");
            let t = d.to_query_text();
            s.append(t.as_str());
            s.append(")");
            assert(s@ =~= value_debug(v@));
        },
        Value::String(x) => {
            s.append("String(\"");
            s.append(x.as_str());
            s.append("\")");
            assert(s@ =~= value_debug(v@));
        },
    }
    s
}

impl ParsingErr {
    /// The message shown for the error.
    pub fn message(&self) -> (s: String)
        ensures
            s@ == parsing_message(*self),
    {
        let mut s = String::new();
        match self {
            ParsingErr::SyntaxError(p) => {
                s.append("Syntax error at character ");
                let n = u64_to_string(*p as u64);
                s.append(n.as_str());
                s.append(" (format of command is incorrect)");
            },
            ParsingErr::ParsingFromString(v, t) => {
                s.append("Couldnt parse value '");
                s.append(v.as_str());
                s.append("' to ");
                s.append(t.to_query_name());
            },
            ParsingErr::RepeatedColumn(c) => {
                s.append("Column '");
                s.append(c.as_str());
                s.append("' appeared more than once");
            },
            ParsingErr::RepeatedModifier => {
                s.append("Modifier appeared more than once");
            },
        }
        s
    }
}

impl ExecutionErr {
    /// The message shown for the error.
    pub fn message(&self) -> (s: String)
        ensures
            s@ == execution_message(*self),
        decreases *self,
    {
        let mut s = String::new();
        match self {
            ExecutionErr::TableAlreadyPresent(n) => {
                s.append("Database already has table '");
                s.append(n.as_str());
                s.append("'");
            },
            ExecutionErr::NoPK(n) => {
                s.append("No definition for primary key '");
                s.append(n.as_str());
                s.append("'");
            },
            ExecutionErr::WrongPKType { expected, got } => {
                s.append("Wrong Primary Key type expected '");
                s.append(expected.to_query_name());
                s.append("' got '");
                s.append(got.to_query_name());
                s.append("'");
            },
            ExecutionErr::NoTable(n) => {
                s.append("No table '");
                s.append(n.as_str());
                s.append("' in database'");
            },
            ExecutionErr::WrongArgLen { table, got, expected } => {
                s.append("Bad amount of arguments in '");
                s.append(table.as_str());
                s.append("', expected ");
                let e = u64_to_string(*expected as u64);
                s.append(e.as_str());
                s.append(" but got ");
                let g = u64_to_string(*got as u64);
                s.append(g.as_str());
            },
            ExecutionErr::BadType { field, got, expected } => {
                s.append("Bad type for '");
                s.append(field.as_str());
                s.append("' , expected ");
                s.append(expected.to_query_name());
                s.append(" but got ");
                s.append(got.to_query_name());
            },
            ExecutionErr::NoDef(n) => {
                s.append("No field definition in schema for ");
                s.append(n.as_str());
            },
            ExecutionErr::RepeatedColumn(n) => {
                s.append("Column '");
                s.append(n.as_str());
                s.append("' appeared more than once");
            },
            ExecutionErr::RepeatedRecord(v) => {
                s.append("Value '");
                let t = value_debug_text(v);
                s.append(t.as_str());
                s.append("' appeared more than once");
            },
            ExecutionErr::CouldntParse(k, t) => {
                s.append("Couldnt parse value '");
                s.append(k.as_str());
                s.append("' to ");
                s.append(t.to_query_name());
            },
            ExecutionErr::NoKeyStr(k, t) => {
                s.append("No record with key '");
                s.append(k.as_str());
                s.append("' in table '");
                s.append(t.as_str());
                s.append("'");
            },
            ExecutionErr::BadFile(p) => {
                s.append("Couldnt use file '");
                s.append(p.as_str());
                s.append("'");
            },
            ExecutionErr::ExecutingError(inner) => {
                s.append("Error while executing file: ");
                let t = inner.message();
                s.append(t.as_str());
            },
        }
        s
    }
}

impl DatabaseErr {
    /// The message shown for the error: the kind of statement in brackets, then the
    /// error's own message.
    pub fn message(&self) -> (s: String)
        ensures
            s@ == database_message(*self),
        decreases *self,
    {
        let mut s = String::from_str("[");
        match self {
            DatabaseErr::ParsingError { error, statement } => {
                s.append(statement.to_string());
                s.append("] ");
                let t = error.message();
                s.append(t.as_str());
            },
            DatabaseErr::ExecutionError { error, statement } => {
                s.append(statement.to_string());
                s.append("] ");
                let t = error.message();
                s.append(t.as_str());
            },
        }
        s
    }
}

} // verus!
