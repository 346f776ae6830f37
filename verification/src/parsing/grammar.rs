//! The grammar of queries, stated over tokens.
//!
//! A query is a sequence of statements. Keywords are case-insensitive and most have a
//! short form:
//!
//! ```text
//! CREATE|C <table> KEY|K <key> FIELDS|F (<field> : <type>)+
//! INSERT|I (<field> = <value>)+ INTO|I <table>
//! DELETE|D <key> FROM|F <table>
//! SELECT (* | <column>+) FROM|F <table> (LIMIT <digits> | ORDER_BY <field>)*
//! SAVE_AS|SAVE|S_A <path>
//! READ_FROM|READ|R|R_F <path>
//! ```
//!
//! Types are `String|Str`, `Int|Integer`, `Float`, `Bool|Boolean`. A value is an integer
//! (`-`? digits), a fractional number (`-`? digits `.` digits), `true`/`false`, or else a
//! string. Names are letters, digits and `_`.
use vstd::prelude::*;
use crate::errors::database_result::StatementErr;
use crate::errors::parsing_err::ParsingErrView;
use crate::model::decimal::{is_float_literal, literal_decimal};
use crate::model::field_map::{has_key, insert_by_name};
use crate::model::table::{ValueType, ValueView};
use crate::parsing::lexer::{Token, TokenKind, lex};
use crate::parsing::statements::{StatementView, CreateStView, InsertStView, DeleteStView, SelectStView};
use crate::text::{all_digits, digits_val, parse_i64_text};

verus! {

/// A reading error with the kind of statement it belongs to.
pub struct ParseFailure {
    pub error: ParsingErrView,
    pub statement: StatementErr,
}

/// The characters a token covers.
pub open spec fn tok_text(s: Seq<char>, tk: Token) -> Seq<char> {
    s.subrange(tk.start as int, tk.end as int)
}

pub open spec fn kind_at(t: Seq<Token>, p: int, k: TokenKind) -> bool {
    0 <= p < t.len() && t[p].kind == k
}

pub open spec fn is_word_at(t: Seq<Token>, p: int) -> bool {
    kind_at(t, p, TokenKind::Word)
}

/// Where a reading error at token `p` is reported: the token's first character, or the
/// end of the text.
pub open spec fn err_pos(s: Seq<char>, t: Seq<Token>, p: int) -> nat {
    if 0 <= p < t.len() {
        t[p].start as nat
    } else {
        s.len()
    }
}

/// `c` is the upper-case letter `k`, or its lower-case form.
pub open spec fn same_ci(c: char, k: char) -> bool {
    c == k || ('a' <= c && c <= 'z' && (c as u32) as int == (k as u32) as int + 32)
}

/// `w` is the keyword `k` (written in upper case), in any case.
pub open spec fn matches_ci(w: Seq<char>, k: Seq<char>) -> bool {
    w.len() == k.len() && forall|i: int| 0 <= i < w.len() ==> #[trigger] same_ci(w[i], k[i])
}

pub open spec fn kw_at(s: Seq<char>, t: Seq<Token>, p: int, k: Seq<char>) -> bool {
    is_word_at(t, p) && matches_ci(tok_text(s, t[p]), k)
}

pub open spec fn is_ident_char(c: char) -> bool {
    ('a' <= c && c <= 'z') || ('A' <= c && c <= 'Z') || ('0' <= c && c <= '9') || c == '_'
}

/// A name: letters, digits and underscores.
pub open spec fn is_ident(w: Seq<char>) -> bool {
    w.len() > 0 && forall|i: int| 0 <= i < w.len() ==> #[trigger] is_ident_char(w[i])
}

pub open spec fn ident_at(s: Seq<char>, t: Seq<Token>, p: int) -> bool {
    is_word_at(t, p) && is_ident(tok_text(s, t[p]))
}

pub open spec fn text_at(s: Seq<char>, t: Seq<Token>, p: int) -> Seq<char> {
    tok_text(s, t[p])
}

pub open spec fn from_kw_at(s: Seq<char>, t: Seq<Token>, p: int) -> bool {
    kw_at(s, t, p, "FROM"@) || kw_at(s, t, p, "F"@)
}

/// The first reading error: the one already found, else `e`.
pub open spec fn first_err(sem: Option<ParsingErrView>, e: ParsingErrView) -> Option<ParsingErrView> {
    match sem {
        Some(x) => Some(x),
        None => Some(e),
    }
}

/// The type a type keyword names.
pub open spec fn type_at(s: Seq<char>, t: Seq<Token>, p: int) -> Option<ValueType> {
    if kw_at(s, t, p, "STRING"@) || kw_at(s, t, p, "STR"@) {
        Some(ValueType::String)
    } else if kw_at(s, t, p, "INT"@) || kw_at(s, t, p, "INTEGER"@) {
        Some(ValueType::Int)
    } else if kw_at(s, t, p, "FLOAT"@) {
        Some(ValueType::Float)
    } else if kw_at(s, t, p, "BOOL"@) || kw_at(s, t, p, "BOOLEAN"@) {
        Some(ValueType::Bool)
    } else {
        None
    }
}

/// An integer literal: an optional `-`, then digits.
pub open spec fn is_int_literal(w: Seq<char>) -> bool {
    (w.len() > 0 && all_digits(w)) || (w.len() > 1 && w[0] == '-' && all_digits(w.drop_first()))
}

/// The value a word stands for, or the error when it is an integer too large for `i64`.
pub open spec fn value_of(w: Seq<char>) -> Result<ValueView, ParsingErrView> {
    if is_int_literal(w) {
        match parse_i64_text(w) {
            Some(i) => Ok(ValueView::Int(i)),
            None => Err(ParsingErrView::ParsingFromString(w, ValueType::Int)),
        }
    } else if is_float_literal(w) {
        Ok(ValueView::Float(literal_decimal(w)))
    } else if matches_ci(w, "TRUE"@) {
        Ok(ValueView::Bool(true))
    } else if matches_ci(w, "FALSE"@) {
        Ok(ValueView::Bool(false))
    } else {
        Ok(ValueView::String(w))
    }
}

/// The field definitions `<field> : <type>` from token `q` on, kept in order of name.
pub open spec fn parse_defs(
    s: Seq<char>,
    t: Seq<Token>,
    q: int,
    acc: Seq<(Seq<char>, ValueType)>,
    sem: Option<ParsingErrView>,
) -> Result<(Seq<(Seq<char>, ValueType)>, Option<ParsingErrView>, int), nat>
    decreases t.len() - q,
{
    if 0 <= q && is_word_at(t, q) && kind_at(t, q + 1, TokenKind::Colon) {
        if !ident_at(s, t, q) {
            Err(err_pos(s, t, q))
        } else {
            match type_at(s, t, q + 2) {
                None => Err(err_pos(s, t, q + 2)),
                Some(vt) => {
                    let name = text_at(s, t, q);
                    if has_key(acc, name) {
                        parse_defs(s, t, q + 3, acc, first_err(sem, ParsingErrView::RepeatedColumn(name)))
                    } else {
                        parse_defs(s, t, q + 3, insert_by_name(acc, (name, vt)), sem)
                    }
                },
            }
        }
    } else {
        Ok((acc, sem, q))
    }
}

/// The assignments `<field> = <value>` from token `q` on, kept in order of name.
pub open spec fn parse_assigns(
    s: Seq<char>,
    t: Seq<Token>,
    q: int,
    acc: Seq<(Seq<char>, ValueView)>,
    sem: Option<ParsingErrView>,
) -> Result<(Seq<(Seq<char>, ValueView)>, Option<ParsingErrView>, int), nat>
    decreases t.len() - q,
{
    if 0 <= q && is_word_at(t, q) && kind_at(t, q + 1, TokenKind::Equals) {
        if !ident_at(s, t, q) {
            Err(err_pos(s, t, q))
        } else if !is_word_at(t, q + 2) {
            Err(err_pos(s, t, q + 2))
        } else {
            let name = text_at(s, t, q);
            match value_of(text_at(s, t, q + 2)) {
                Err(e) => parse_assigns(s, t, q + 3, acc, first_err(sem, e)),
                Ok(v) => if has_key(acc, name) {
                    parse_assigns(s, t, q + 3, acc, first_err(sem, ParsingErrView::RepeatedColumn(name)))
                } else {
                    parse_assigns(s, t, q + 3, insert_by_name(acc, (name, v)), sem)
                },
            }
        }
    } else {
        Ok((acc, sem, q))
    }
}

/// The column names of a `SELECT`, up to `FROM`.
pub open spec fn parse_columns(s: Seq<char>, t: Seq<Token>, q: int, acc: Seq<Seq<char>>) -> Result<(Seq<Seq<char>>, int), nat>
    decreases t.len() - q,
{
    if 0 <= q && is_word_at(t, q) && !from_kw_at(s, t, q) {
        if !ident_at(s, t, q) {
            Err(err_pos(s, t, q))
        } else {
            parse_columns(s, t, q + 1, acc.push(text_at(s, t, q)))
        }
    } else {
        Ok((acc, q))
    }
}

/// The `LIMIT` and `ORDER_BY` modifiers of a `SELECT`, in any order.
pub open spec fn parse_mods(
    s: Seq<char>,
    t: Seq<Token>,
    q: int,
    limit: Option<u64>,
    ob: Option<Seq<char>>,
    sem: Option<ParsingErrView>,
) -> Result<(Option<u64>, Option<Seq<char>>, Option<ParsingErrView>, int), nat>
    decreases t.len() - q,
{
    if 0 <= q && kw_at(s, t, q, "LIMIT"@) {
        if !(is_word_at(t, q + 1) && text_at(s, t, q + 1).len() > 0 && all_digits(text_at(s, t, q + 1))) {
            Err(err_pos(s, t, q + 1))
        } else {
            let w = text_at(s, t, q + 1);
            if digits_val(w) > u64::MAX {
                parse_mods(s, t, q + 2, limit, ob, first_err(sem, ParsingErrView::ParsingFromString(w, ValueType::Int)))
            } else if limit is Some {
                parse_mods(s, t, q + 2, limit, ob, first_err(sem, ParsingErrView::RepeatedModifier))
            } else {
                parse_mods(s, t, q + 2, Some(digits_val(w) as u64), ob, sem)
            }
        }
    } else if 0 <= q && kw_at(s, t, q, "ORDER_BY"@) {
        if !ident_at(s, t, q + 1) {
            Err(err_pos(s, t, q + 1))
        } else if ob is Some {
            parse_mods(s, t, q + 2, limit, ob, first_err(sem, ParsingErrView::RepeatedModifier))
        } else {
            parse_mods(s, t, q + 2, limit, Some(text_at(s, t, q + 1)), sem)
        }
    } else {
        Ok((limit, ob, sem, q))
    }
}

/// A statement, or the first reading error of the kind given.
pub open spec fn with_failure(sem: Option<ParsingErrView>, kind: StatementErr, st: StatementView) -> Result<StatementView, ParseFailure> {
    match sem {
        Some(e) => Err(ParseFailure { error: e, statement: kind }),
        None => Ok(st),
    }
}

/// `CREATE`, from the token after the keyword.
pub open spec fn parse_create(s: Seq<char>, t: Seq<Token>, p: int) -> Result<(Result<StatementView, ParseFailure>, int), nat> {
    if !ident_at(s, t, p) {
        Err(err_pos(s, t, p))
    } else if !(kw_at(s, t, p + 1, "KEY"@) || kw_at(s, t, p + 1, "K"@)) {
        Err(err_pos(s, t, p + 1))
    } else if !ident_at(s, t, p + 2) {
        Err(err_pos(s, t, p + 2))
    } else if !(kw_at(s, t, p + 3, "FIELDS"@) || kw_at(s, t, p + 3, "F"@)) {
        Err(err_pos(s, t, p + 3))
    } else if !(is_word_at(t, p + 4) && kind_at(t, p + 5, TokenKind::Colon)) {
        Err(err_pos(s, t, p + 4))
    } else {
        match parse_defs(s, t, p + 4, Seq::empty(), None) {
            Err(e) => Err(e),
            Ok((schema, sem, q)) => Ok((
                with_failure(sem, StatementErr::Create, StatementView::Create(CreateStView {
                    table_name: text_at(s, t, p),
                    key_name: text_at(s, t, p + 2),
                    schema,
                })),
                q,
            )),
        }
    }
}

/// `INSERT`, from the token after the keyword.
pub open spec fn parse_insert(s: Seq<char>, t: Seq<Token>, p: int) -> Result<(Result<StatementView, ParseFailure>, int), nat> {
    if !(is_word_at(t, p) && kind_at(t, p + 1, TokenKind::Equals)) {
        Err(err_pos(s, t, p))
    } else {
        match parse_assigns(s, t, p, Seq::empty(), None) {
            Err(e) => Err(e),
            Ok((fields, sem, q)) => if !(kw_at(s, t, q, "INTO"@) || kw_at(s, t, q, "I"@)) {
                Err(err_pos(s, t, q))
            } else if !ident_at(s, t, q + 1) {
                Err(err_pos(s, t, q + 1))
            } else {
                Ok((
                    with_failure(sem, StatementErr::Insert, StatementView::Insert(InsertStView {
                        fields,
                        table_name: text_at(s, t, q + 1),
                    })),
                    q + 2,
                ))
            },
        }
    }
}

/// `DELETE`, from the token after the keyword.
pub open spec fn parse_delete(s: Seq<char>, t: Seq<Token>, p: int) -> Result<(Result<StatementView, ParseFailure>, int), nat> {
    if !is_word_at(t, p) {
        Err(err_pos(s, t, p))
    } else if !from_kw_at(s, t, p + 1) {
        Err(err_pos(s, t, p + 1))
    } else if !ident_at(s, t, p + 2) {
        Err(err_pos(s, t, p + 2))
    } else {
        Ok((
            Ok(StatementView::Delete(DeleteStView { table_name: text_at(s, t, p + 2), key: text_at(s, t, p) })),
            p + 3,
        ))
    }
}

/// `SELECT`, from the token after the keyword.
pub open spec fn parse_select(s: Seq<char>, t: Seq<Token>, p: int) -> Result<(Result<StatementView, ParseFailure>, int), nat> {
    let all = is_word_at(t, p) && text_at(s, t, p) == seq!['*'];
    let cols: Result<(Seq<Seq<char>>, int), nat> = if all {
        Ok((Seq::empty(), p + 1))
    } else if !(is_word_at(t, p) && !from_kw_at(s, t, p)) {
        Err(err_pos(s, t, p))
    } else {
        parse_columns(s, t, p, Seq::empty())
    };
    match cols {
        Err(e) => Err(e),
        Ok((rows, q)) => if !from_kw_at(s, t, q) {
            Err(err_pos(s, t, q))
        } else if !ident_at(s, t, q + 1) {
            Err(err_pos(s, t, q + 1))
        } else {
            match parse_mods(s, t, q + 2, None, None, None) {
                Err(e) => Err(e),
                Ok((limit, order_by, sem, r)) => Ok((
                    with_failure(sem, StatementErr::Select, StatementView::Select(SelectStView {
                        rows,
                        all_rows: all,
                        table_name: text_at(s, t, q + 1),
                        limit,
                        order_by,
                    })),
                    r,
                )),
            }
        },
    }
}

/// One statement starting at token `p`, and the token after it; or where reading failed.
pub open spec fn parse_statement(s: Seq<char>, t: Seq<Token>, p: int) -> Result<(Result<StatementView, ParseFailure>, int), nat> {
    if !is_word_at(t, p) {
        Err(err_pos(s, t, p))
    } else if kw_at(s, t, p, "CREATE"@) || kw_at(s, t, p, "C"@) {
        parse_create(s, t, p + 1)
    } else if kw_at(s, t, p, "INSERT"@) || kw_at(s, t, p, "I"@) {
        parse_insert(s, t, p + 1)
    } else if kw_at(s, t, p, "DELETE"@) || kw_at(s, t, p, "D"@) {
        parse_delete(s, t, p + 1)
    } else if kw_at(s, t, p, "SELECT"@) {
        parse_select(s, t, p + 1)
    } else if kw_at(s, t, p, "SAVE_AS"@) || kw_at(s, t, p, "SAVE"@) || kw_at(s, t, p, "S_A"@) {
        if !is_word_at(t, p + 1) {
            Err(err_pos(s, t, p + 1))
        } else {
            Ok((Ok(StatementView::Save(text_at(s, t, p + 1))), p + 2))
        }
    } else if kw_at(s, t, p, "READ_FROM"@) || kw_at(s, t, p, "READ"@) || kw_at(s, t, p, "R"@) || kw_at(s, t, p, "R_F"@) {
        if !is_word_at(t, p + 1) {
            Err(err_pos(s, t, p + 1))
        } else {
            Ok((Ok(StatementView::Read(text_at(s, t, p + 1))), p + 2))
        }
    } else {
        Err(err_pos(s, t, p))
    }
}

/// The statements from token `p` on. A query that breaks the grammar anywhere fails with
/// the position; otherwise the first other reading error, in statement order, decides;
/// otherwise the statements, followed by `NoStatement` for the end of the query.
pub open spec fn parse_all(
    s: Seq<char>,
    t: Seq<Token>,
    p: int,
    acc: Seq<StatementView>,
    sem: Option<ParseFailure>,
) -> Result<Seq<StatementView>, ParseFailure>
    decreases t.len() - p,
{
    if p < 0 || p >= t.len() {
        match sem {
            Some(f) => Err(f),
            None => Ok(acc.push(StatementView::NoStatement)),
        }
    } else {
        match parse_statement(s, t, p) {
            Err(pos) => Err(ParseFailure { error: ParsingErrView::SyntaxError(pos), statement: StatementErr::NotSpecified }),
            Ok((r, q)) => if q <= p || q > t.len() {
                Err(ParseFailure { error: ParsingErrView::SyntaxError(err_pos(s, t, p)), statement: StatementErr::NotSpecified })
            } else {
                match r {
                    Ok(st) => parse_all(s, t, q, acc.push(st), sem),
                    Err(f) => parse_all(s, t, q, acc, match sem {
                        Some(x) => Some(x),
                        None => Some(f),
                    }),
                }
            },
        }
    }
}

/// What reading the query `s` gives: its statements, or the error.
pub open spec fn parse_query(s: Seq<char>) -> Result<Seq<StatementView>, ParseFailure> {
    parse_all(s, lex(s), 0, Seq::empty(), None)
}

} // verus!
