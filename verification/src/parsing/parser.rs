//! Reads queries into statements, following the grammar of `grammar.rs`.
use vstd::prelude::*;
use crate::errors::database_result::{DatabaseErr, DatabaseResult, StatementErr};
use crate::errors::parsing_err::{ParsingErr, ParsingErrView};
use crate::model::decimal::{Decimal, is_float_literal, literal_decimal};
use crate::model::field_map::{FieldMap, has_key};
use crate::model::table::{Value, ValueView, ValueType};
use crate::parsing::grammar::{ParseFailure, kind_at, is_word_at, err_pos, same_ci, matches_ci, kw_at, is_ident_char, ident_at, text_at, tok_text, from_kw_at, first_err, type_at, is_int_literal, value_of, parse_defs, parse_assigns, parse_columns, parse_mods, with_failure, parse_create, parse_insert, parse_delete, parse_select, parse_statement, parse_all, parse_query};
use crate::parsing::lexer::{Token, TokenKind, tokenize, tokens_wf, lex};
use crate::parsing::statements::{CreateSt, InsertSt, DeleteSt, ReadSt, SaveSt, SelectSt, LimitSt, OrderBySt, Statement, StatementView};
use crate::text::{chars_of, string_from_chars, check_digits, parse_digits, parse_i64, all_digits, digits_val, parse_i64_text};

verus! {

/// Reads queries.
pub struct SQLParser;

/// The model of an optional reading error.
pub open spec fn sem_view(o: Option<ParsingErr>) -> Option<ParsingErrView> {
    match o {
        Some(e) => Some(e@),
        None => None,
    }
}

/// The model of an optional `LIMIT`.
pub open spec fn limit_view(l: Option<LimitSt>) -> Option<u64> {
    match l {
        Some(x) => Some(x.0),
        None => None,
    }
}

/// The model of an optional `ORDER_BY`.
pub open spec fn order_view(o: Option<OrderBySt>) -> Option<Seq<char>> {
    match o {
        Some(x) => Some(x.0@),
        None => None,
    }
}

/// A statement, or a reading error, agrees with its model.
pub open spec fn outcome_matches(r: Result<Statement, DatabaseErr>, m: Result<StatementView, ParseFailure>) -> bool {
    match (r, m) {
        (Ok(st), Ok(sv)) => st@ == sv,
        (Err(DatabaseErr::ParsingError { error, statement }), Err(f)) => error@ == f.error && statement == f.statement,
        _ => false,
    }
}

/// The models of statements.
pub open spec fn statements_view(v: Seq<Statement>) -> Seq<StatementView> {
    v.map_values(|st: Statement| st@)
}

/// The model of the first reading error found so far.
pub open spec fn failure_view(o: Option<(ParsingErr, StatementErr)>) -> Option<ParseFailure> {
    match o {
        Some((e, k)) => Some(ParseFailure { error: e@, statement: k }),
        None => None,
    }
}

/// The result of reading a query agrees with its model.
pub open spec fn query_matches(r: DatabaseResult<Vec<Statement>>, m: Result<Seq<StatementView>, ParseFailure>) -> bool {
    match (r, m) {
        (Ok(v), Ok(sv)) => statements_view(v@) == sv,
        (Err(DatabaseErr::ParsingError { error, statement }), Err(f)) => error@ == f.error && statement == f.statement,
        _ => false,
    }
}

/// A step of reading agrees with its model.
pub open spec fn step_matches(
    r: Result<(Result<Statement, DatabaseErr>, usize), usize>,
    m: Result<(Result<StatementView, ParseFailure>, int), nat>,
) -> bool {
    match (r, m) {
        (Ok((o, q)), Ok((mo, mq))) => outcome_matches(o, mo) && q as int == mq,
        (Err(pos), Err(mpos)) => pos as nat == mpos,
        _ => false,
    }
}

fn is_kind(t: &Vec<Token>, p: usize, k: TokenKind) -> (b: bool)
    ensures
        b == kind_at(t@, p as int, k),
{
    p < t.len() && t[p].kind == k
}

fn is_word(t: &Vec<Token>, p: usize) -> (b: bool)
    ensures
        b == is_word_at(t@, p as int),
{
    is_kind(t, p, TokenKind::Word)
}

fn position_of(v: &Vec<char>, t: &Vec<Token>, p: usize) -> (r: usize)
    ensures
        r as nat == err_pos(v@, t@, p as int),
{
    if p < t.len() {
        t[p].start
    } else {
        v.len()
    }
}

/// Whether the token at `p` is the keyword `k` (given in upper case), in any case.
fn kw(v: &Vec<char>, t: &Vec<Token>, p: usize, k: &str) -> (b: bool)
    requires
        tokens_wf(v@, t@),
    ensures
        b == kw_at(v@, t@, p as int, k@),
{
    if !is_word(t, p) {
        return false;
    }
    let tk = t[p];
    let kc = chars_of(k);
    let ghost w = tok_text(v@, tk);
    if tk.end - tk.start != kc.len() {
        return false;
    }
    let mut i: usize = 0;
    while i < kc.len()
        invariant
            tk == t@[p as int],
            kc@ == k@,
            tk.start < tk.end <= v@.len(),
            tk.end - tk.start == kc@.len(),
            w == v@.subrange(tk.start as int, tk.end as int),
            i <= kc@.len(),
            forall|j: int| 0 <= j < i ==> #[trigger] same_ci(w[j], kc@[j]),
        decreases kc@.len() - i,
    {
        let c = v[tk.start + i];
        let k = kc[i];
        assert(w[i as int] == c);
        if !(c == k || (c >= 'a' && c <= 'z' && (c as u32) >= 32 && (c as u32) - 32 == (k as u32))) {
            assert(!same_ci(w[i as int], kc@[i as int]));
            return false;
        }
        i = i + 1;
    }
    true
}

fn from_kw(v: &Vec<char>, t: &Vec<Token>, p: usize) -> (b: bool)
    requires
        tokens_wf(v@, t@),
    ensures
        b == from_kw_at(v@, t@, p as int),
{
    kw(v, t, p, "FROM") || kw(v, t, p, "F")
}

/// Whether the token at `p` is a name.
fn ident(v: &Vec<char>, t: &Vec<Token>, p: usize) -> (b: bool)
    requires
        tokens_wf(v@, t@),
    ensures
        b == ident_at(v@, t@, p as int),
{
    if !is_word(t, p) {
        return false;
    }
    let tk = t[p];
    let ghost w = tok_text(v@, tk);
    let mut i = tk.start;
    while i < tk.end
        invariant
            tk == t@[p as int],
            tk.start <= i <= tk.end <= v@.len(),
            tk.start < tk.end,
            w == v@.subrange(tk.start as int, tk.end as int),
            forall|j: int| 0 <= j < i - tk.start ==> #[trigger] is_ident_char(w[j]),
        decreases tk.end - i,
    {
        let c = v[i];
        assert(w[i - tk.start] == c);
        if !((c >= 'a' && c <= 'z') || (c >= 'A' && c <= 'Z') || (c >= '0' && c <= '9') || c == '_') {
            assert(!is_ident_char(w[i - tk.start]));
            return false;
        }
        i = i + 1;
    }
    true
}

/// The text of the token at `p`.
fn text(v: &Vec<char>, t: &Vec<Token>, p: usize) -> (s: String)
    requires
        tokens_wf(v@, t@),
        p < t@.len(),
    ensures
        s@ == text_at(v@, t@, p as int),
{
    string_from_chars(v, t[p].start, t[p].end)
}

fn type_kw(v: &Vec<char>, t: &Vec<Token>, p: usize) -> (r: Option<ValueType>)
    requires
        tokens_wf(v@, t@),
    ensures
        r == type_at(v@, t@, p as int),
{
    if kw(v, t, p, "STRING") || kw(v, t, p, "STR") {
        Some(ValueType::String)
    } else if kw(v, t, p, "INT") || kw(v, t, p, "INTEGER") {
        Some(ValueType::Int)
    } else if kw(v, t, p, "FLOAT") {
        Some(ValueType::Float)
    } else if kw(v, t, p, "BOOL") || kw(v, t, p, "BOOLEAN") {
        Some(ValueType::Bool)
    } else {
        None
    }
}

/// Whether `v[from..to]` is the keyword `k` in any case.
pub(crate) fn chars_match_ci(v: &Vec<char>, from: usize, to: usize, k: &str) -> (b: bool)
    requires
        from <= to <= v@.len(),
    ensures
        b == matches_ci(v@.subrange(from as int, to as int), k@),
{
    let kc = chars_of(k);
    let ghost w = v@.subrange(from as int, to as int);
    if to - from != kc.len() {
        return false;
    }
    let mut i: usize = 0;
    while i < kc.len()
        invariant
            kc@ == k@,
            from <= to <= v@.len(),
            to - from == kc@.len(),
            w == v@.subrange(from as int, to as int),
            i <= kc@.len(),
            forall|j: int| 0 <= j < i ==> #[trigger] same_ci(w[j], kc@[j]),
        decreases kc@.len() - i,
    {
        let c = v[from + i];
        let k = kc[i];
        assert(w[i as int] == c);
        if !(c == k || (c >= 'a' && c <= 'z' && (c as u32) >= 32 && (c as u32) - 32 == (k as u32))) {
            assert(!same_ci(w[i as int], kc@[i as int]));
            return false;
        }
        i = i + 1;
    }
    true
}

/// The value the token at `p` stands for.
fn value_from(v: &Vec<char>, t: &Vec<Token>, p: usize) -> (r: Result<Value, ParsingErr>)
    requires
        tokens_wf(v@, t@),
        p < t@.len(),
    ensures
        match (r, value_of(text_at(v@, t@, p as int))) {
            (Ok(x), Ok(y)) => x@ == y,
            (Err(x), Err(y)) => x@ == y,
            _ => false,
        },
{
    let from = t[p].start;
    let to = t[p].end;
    let ghost w = text_at(v@, t@, p as int);
    assert(w == v@.subrange(from as int, to as int));
    let digits_only = check_digits(v, from, to);
    let neg_int = to - from > 1 && v[from] == '-' && check_digits(v, from + 1, to);
    proof {
        if to - from > 1 && v@[from as int] == '-' {
            assert(w.drop_first() =~= v@.subrange(from + 1, to as int));
        }
    }
    if (to > from && digits_only) || neg_int {
        match parse_i64(v, from, to) {
            Some(i) => Ok(Value::Int(i)),
            None => Err(ParsingErr::ParsingFromString(string_from_chars(v, from, to), ValueType::Int)),
        }
    } else {
        match Decimal::from_chars(v, from, to) {
            Some(d) => Ok(Value::Float(d)),
            None => {
                if chars_match_ci(v, from, to, "TRUE") {
                    Ok(Value::Bool(true))
                } else if chars_match_ci(v, from, to, "FALSE") {
                    Ok(Value::Bool(false))
                } else {
                    Ok(Value::String(string_from_chars(v, from, to)))
                }
            },
        }
    }
}

fn first_error(sem: Option<ParsingErr>, e: ParsingErr) -> (r: Option<ParsingErr>)
    ensures
        sem_view(r) == first_err(sem_view(sem), e@),
{
    match sem {
        Some(x) => Some(x),
        None => Some(e),
    }
}

impl SQLParser {
    /// Field definitions from token `q` on, added to `schema`.
    fn parse_defs_exec(v: &Vec<char>, t: &Vec<Token>, q: usize, schema: FieldMap<ValueType>, sem: Option<ParsingErr>)
        -> (r: Result<(FieldMap<ValueType>, Option<ParsingErr>, usize), usize>)
        requires
            tokens_wf(v@, t@),
            q <= t@.len(),
            t@.len() + 8 < usize::MAX,
        ensures
            match (r, parse_defs(v@, t@, q as int, schema@, sem_view(sem))) {
                (Ok((m, e, q2)), Ok((ms, es, q2s))) => m@ == ms && sem_view(e) == es && q2 as int == q2s
                    && q2 <= t@.len(),
                (Err(pos), Err(ps)) => pos as nat == ps,
                _ => false,
            },
    {
        let ghost target = parse_defs(v@, t@, q as int, schema@, sem_view(sem));
        let mut pos = q;
        let mut acc = schema;
        let mut err = sem;
        while is_word(t, pos) && is_kind(t, pos + 1, TokenKind::Colon)
            invariant
                tokens_wf(v@, t@),
                pos <= t@.len(),
                t@.len() + 8 < usize::MAX,
                target == parse_defs(v@, t@, q as int, schema@, sem_view(sem)),
                parse_defs(v@, t@, pos as int, acc@, sem_view(err)) == target,
            decreases t@.len() - pos,
        {
            if !ident(v, t, pos) {
                return Err(position_of(v, t, pos));
            }
            let vt = match type_kw(v, t, pos + 2) {
                None => return Err(position_of(v, t, pos + 2)),
                Some(x) => x,
            };
            let name = text(v, t, pos);
            if acc.contains_key(name.as_str()) {
                err = first_error(err, ParsingErr::RepeatedColumn(name));
            } else {
                acc.insert(name, vt);
            }
            pos = pos + 3;
        }
        Ok((acc, err, pos))
    }

    /// Assignments from token `q` on, added to `fields`.
    fn parse_assigns_exec(v: &Vec<char>, t: &Vec<Token>, q: usize, fields: FieldMap<Value>, sem: Option<ParsingErr>)
        -> (r: Result<(FieldMap<Value>, Option<ParsingErr>, usize), usize>)
        requires
            tokens_wf(v@, t@),
            q <= t@.len(),
            t@.len() + 8 < usize::MAX,
        ensures
            match (r, parse_assigns(v@, t@, q as int, fields@, sem_view(sem))) {
                (Ok((m, e, q2)), Ok((ms, es, q2s))) => m@ == ms && sem_view(e) == es && q2 as int == q2s
                    && q2 <= t@.len(),
                (Err(pos), Err(ps)) => pos as nat == ps,
                _ => false,
            },
    {
        let ghost target = parse_assigns(v@, t@, q as int, fields@, sem_view(sem));
        let mut pos = q;
        let mut acc = fields;
        let mut err = sem;
        while is_word(t, pos) && is_kind(t, pos + 1, TokenKind::Equals)
            invariant
                tokens_wf(v@, t@),
                pos <= t@.len(),
                t@.len() + 8 < usize::MAX,
                target == parse_assigns(v@, t@, q as int, fields@, sem_view(sem)),
                parse_assigns(v@, t@, pos as int, acc@, sem_view(err)) == target,
            decreases t@.len() - pos,
        {
            if !ident(v, t, pos) {
                return Err(position_of(v, t, pos));
            }
            if !is_word(t, pos + 2) {
                return Err(position_of(v, t, pos + 2));
            }
            let name = text(v, t, pos);
            match value_from(v, t, pos + 2) {
                Err(e) => {
                    err = first_error(err, e);
                },
                Ok(val) => {
                    if acc.contains_key(name.as_str()) {
                        err = first_error(err, ParsingErr::RepeatedColumn(name));
                    } else {
                        acc.insert(name, val);
                    }
                },
            }
            pos = pos + 3;
        }
        Ok((acc, err, pos))
    }

    /// The column names of a `SELECT` from token `q` on, up to `FROM`.
    fn parse_columns_exec(v: &Vec<char>, t: &Vec<Token>, q: usize) -> (r: Result<(Vec<String>, usize), usize>)
        requires
            tokens_wf(v@, t@),
            q <= t@.len(),
            t@.len() + 8 < usize::MAX,
        ensures
            match (r, parse_columns(v@, t@, q as int, Seq::empty())) {
                (Ok((cols, q2)), Ok((cs, q2s))) => cols@.map_values(|c: String| c@) == cs && q2 as int == q2s
                    && q2 <= t@.len(),
                (Err(pos), Err(ps)) => pos as nat == ps,
                _ => false,
            },
    {
        let ghost target = parse_columns(v@, t@, q as int, Seq::empty());
        let mut pos = q;
        let mut cols: Vec<String> = Vec::new();
        proof {
            assert(cols@.map_values(|c: String| c@) =~= Seq::<Seq<char>>::empty());
        }
        while is_word(t, pos) && !from_kw(v, t, pos)
            invariant
                tokens_wf(v@, t@),
                pos <= t@.len(),
                t@.len() + 8 < usize::MAX,
                target == parse_columns(v@, t@, q as int, Seq::empty()),
                parse_columns(v@, t@, pos as int, cols@.map_values(|c: String| c@)) == target,
            decreases t@.len() - pos,
        {
            if !ident(v, t, pos) {
                return Err(position_of(v, t, pos));
            }
            let name = text(v, t, pos);
            let ghost before = cols@.map_values(|c: String| c@);
            cols.push(name);
            proof {
                assert(cols@.map_values(|c: String| c@) =~= before.push(text_at(v@, t@, pos as int)));
            }
            pos = pos + 1;
        }
        Ok((cols, pos))
    }

    /// The `LIMIT` and `ORDER_BY` modifiers from token `q` on.
    fn parse_mods_exec(v: &Vec<char>, t: &Vec<Token>, q: usize)
        -> (r: Result<(Option<LimitSt>, Option<OrderBySt>, Option<ParsingErr>, usize), usize>)
        requires
            tokens_wf(v@, t@),
            q <= t@.len(),
            t@.len() + 8 < usize::MAX,
        ensures
            match (r, parse_mods(v@, t@, q as int, None, None, None)) {
                (Ok((l, o, e, q2)), Ok((ls, os, es, q2s))) => limit_view(l) == ls && order_view(o) == os
                    && sem_view(e) == es && q2 as int == q2s && q2 <= t@.len(),
                (Err(pos), Err(ps)) => pos as nat == ps,
                _ => false,
            },
    {
        let ghost target = parse_mods(v@, t@, q as int, None, None, None);
        let mut pos = q;
        let mut limit: Option<LimitSt> = None;
        let mut order_by: Option<OrderBySt> = None;
        let mut err: Option<ParsingErr> = None;
        loop
            invariant
                tokens_wf(v@, t@),
                pos <= t@.len(),
                t@.len() + 8 < usize::MAX,
                target == parse_mods(v@, t@, q as int, None, None, None),
                parse_mods(
                    v@,
                    t@,
                    pos as int,
                    limit_view(limit),
                    order_view(order_by),
                    sem_view(err),
                ) == target,
            decreases t@.len() - pos,
        {
            if kw(v, t, pos, "LIMIT") {
                if !is_word(t, pos + 1) {
                    return Err(position_of(v, t, pos + 1));
                }
                let from = t[pos + 1].start;
                let to = t[pos + 1].end;
                proof {
                    assert(text_at(v@, t@, pos + 1) == v@.subrange(from as int, to as int));
                }
                if !check_digits(v, from, to) {
                    return Err(position_of(v, t, pos + 1));
                }
                match parse_digits(v, from, to) {
                    None => {
                        err = first_error(err, ParsingErr::ParsingFromString(text(v, t, pos + 1), ValueType::Int));
                    },
                    Some(n) => {
                        if limit.is_some() {
                            err = first_error(err, ParsingErr::RepeatedModifier);
                        } else {
                            limit = Some(LimitSt(n));
                        }
                    },
                }
                pos = pos + 2;
            } else if kw(v, t, pos, "ORDER_BY") {
                if !ident(v, t, pos + 1) {
                    return Err(position_of(v, t, pos + 1));
                }
                if order_by.is_some() {
                    err = first_error(err, ParsingErr::RepeatedModifier);
                } else {
                    order_by = Some(OrderBySt(text(v, t, pos + 1)));
                }
                pos = pos + 2;
            } else {
                return Ok((limit, order_by, err, pos));
            }
        }
    }

    /// A statement built from its parts, or the first reading error found in it.
    fn finish(sem: Option<ParsingErr>, kind: StatementErr, st: Statement) -> (r: Result<Statement, DatabaseErr>)
        ensures
            outcome_matches(r, with_failure(sem_view(sem), kind, st@)),
    {
        match sem {
            Some(e) => Err(DatabaseErr::ParsingError { error: e, statement: kind }),
            None => Ok(st),
        }
    }

    /// `CREATE`, from the token after the keyword.
    fn parse_create_exec(v: &Vec<char>, t: &Vec<Token>, p: usize) -> (r: Result<(Result<Statement, DatabaseErr>, usize), usize>)
        requires
            tokens_wf(v@, t@),
            p <= t@.len(),
            t@.len() + 8 < usize::MAX,
        ensures
            step_matches(r, parse_create(v@, t@, p as int)),
            r matches Ok((_, q)) ==> q <= t@.len(),
    {
        if !ident(v, t, p) {
            return Err(position_of(v, t, p));
        }
        if !(kw(v, t, p + 1, "KEY") || kw(v, t, p + 1, "K")) {
            return Err(position_of(v, t, p + 1));
        }
        if !ident(v, t, p + 2) {
            return Err(position_of(v, t, p + 2));
        }
        if !(kw(v, t, p + 3, "FIELDS") || kw(v, t, p + 3, "F")) {
            return Err(position_of(v, t, p + 3));
        }
        if !(is_word(t, p + 4) && is_kind(t, p + 5, TokenKind::Colon)) {
            return Err(position_of(v, t, p + 4));
        }
        let schema: FieldMap<ValueType> = FieldMap::new();
        match Self::parse_defs_exec(v, t, p + 4, schema, None) {
            Err(e) => Err(e),
            Ok((schema, sem, q)) => {
                let st = CreateSt::new(text(v, t, p), text(v, t, p + 2), schema);
                Ok((Self::finish(sem, StatementErr::Create, Statement::Create(st)), q))
            },
        }
    }

    /// `INSERT`, from the token after the keyword.
    fn parse_insert_exec(v: &Vec<char>, t: &Vec<Token>, p: usize) -> (r: Result<(Result<Statement, DatabaseErr>, usize), usize>)
        requires
            tokens_wf(v@, t@),
            p <= t@.len(),
            t@.len() + 8 < usize::MAX,
        ensures
            step_matches(r, parse_insert(v@, t@, p as int)),
            r matches Ok((_, q)) ==> q <= t@.len(),
    {
        if !(is_word(t, p) && is_kind(t, p + 1, TokenKind::Equals)) {
            return Err(position_of(v, t, p));
        }
        let fields: FieldMap<Value> = FieldMap::new();
        match Self::parse_assigns_exec(v, t, p, fields, None) {
            Err(e) => Err(e),
            Ok((fields, sem, q)) => {
                if !(kw(v, t, q, "INTO") || kw(v, t, q, "I")) {
                    return Err(position_of(v, t, q));
                }
                if !ident(v, t, q + 1) {
                    return Err(position_of(v, t, q + 1));
                }
                let st = InsertSt::new(text(v, t, q + 1), fields);
                Ok((Self::finish(sem, StatementErr::Insert, Statement::Insert(st)), q + 2))
            },
        }
    }

    /// `DELETE`, from the token after the keyword.
    fn parse_delete_exec(v: &Vec<char>, t: &Vec<Token>, p: usize) -> (r: Result<(Result<Statement, DatabaseErr>, usize), usize>)
        requires
            tokens_wf(v@, t@),
            p <= t@.len(),
            t@.len() + 8 < usize::MAX,
        ensures
            step_matches(r, parse_delete(v@, t@, p as int)),
            r matches Ok((_, q)) ==> q <= t@.len(),
    {
        if !is_word(t, p) {
            return Err(position_of(v, t, p));
        }
        if !from_kw(v, t, p + 1) {
            return Err(position_of(v, t, p + 1));
        }
        if !ident(v, t, p + 2) {
            return Err(position_of(v, t, p + 2));
        }
        let st = DeleteSt::new(text(v, t, p + 2), text(v, t, p));
        Ok((Ok(Statement::Delete(st)), p + 3))
    }

    /// `SELECT`, from the token after the keyword.
    fn parse_select_exec(v: &Vec<char>, t: &Vec<Token>, p: usize) -> (r: Result<(Result<Statement, DatabaseErr>, usize), usize>)
        requires
            tokens_wf(v@, t@),
            p <= t@.len(),
            t@.len() + 8 < usize::MAX,
        ensures
            step_matches(r, parse_select(v@, t@, p as int)),
            r matches Ok((_, q)) ==> q <= t@.len(),
    {
        let all = is_word(t, p) && t[p].end - t[p].start == 1 && v[t[p].start] == '*';
        proof {
            if is_word_at(t@, p as int) {
                let w = text_at(v@, t@, p as int);
                assert(w.len() == t@[p as int].end - t@[p as int].start);
                if w.len() == 1 {
                    assert(w[0] == v@[t@[p as int].start as int]);
                    if w[0] == '*' {
                        assert(w =~= seq!['*']);
                    }
                }
            }
        }
        let (rows, q) = if all {
            (Vec::new(), p + 1)
        } else if !(is_word(t, p) && !from_kw(v, t, p)) {
            return Err(position_of(v, t, p));
        } else {
            match Self::parse_columns_exec(v, t, p) {
                Err(e) => return Err(e),
                Ok(x) => x,
            }
        };
        proof {
            if all {
                assert(rows@.map_values(|c: String| c@) =~= Seq::<Seq<char>>::empty());
            }
        }
        if !from_kw(v, t, q) {
            return Err(position_of(v, t, q));
        }
        if !ident(v, t, q + 1) {
            return Err(position_of(v, t, q + 1));
        }
        match Self::parse_mods_exec(v, t, q + 2) {
            Err(e) => Err(e),
            Ok((limit, order_by, sem, r)) => {
                let mut st = SelectSt::new(rows, all, text(v, t, q + 1));
                st.limit = limit;
                st.order_by = order_by;
                Ok((Self::finish(sem, StatementErr::Select, Statement::Select(st)), r))
            },
        }
    }

    /// One statement starting at token `p`, and the token after it; or the position
    /// where the grammar is broken.
    fn parse_statement_exec(v: &Vec<char>, t: &Vec<Token>, p: usize) -> (r: Result<(Result<Statement, DatabaseErr>, usize), usize>)
        requires
            tokens_wf(v@, t@),
            p <= t@.len(),
            t@.len() + 8 < usize::MAX,
        ensures
            step_matches(r, parse_statement(v@, t@, p as int)),
            r matches Ok((_, q)) ==> q <= t@.len(),
    {
        if !is_word(t, p) {
            Err(position_of(v, t, p))
        } else if kw(v, t, p, "CREATE") || kw(v, t, p, "C") {
            Self::parse_create_exec(v, t, p + 1)
        } else if kw(v, t, p, "INSERT") || kw(v, t, p, "I") {
            Self::parse_insert_exec(v, t, p + 1)
        } else if kw(v, t, p, "DELETE") || kw(v, t, p, "D") {
            Self::parse_delete_exec(v, t, p + 1)
        } else if kw(v, t, p, "SELECT") {
            Self::parse_select_exec(v, t, p + 1)
        } else if kw(v, t, p, "SAVE_AS") || kw(v, t, p, "SAVE") || kw(v, t, p, "S_A") {
            if !is_word(t, p + 1) {
                Err(position_of(v, t, p + 1))
            } else {
                Ok((Ok(Statement::Save(SaveSt::new(text(v, t, p + 1)))), p + 2))
            }
        } else if kw(v, t, p, "READ_FROM") || kw(v, t, p, "READ") || kw(v, t, p, "R") || kw(v, t, p, "R_F") {
            if !is_word(t, p + 1) {
                Err(position_of(v, t, p + 1))
            } else {
                Ok((Ok(Statement::Read(ReadSt::new(text(v, t, p + 1)))), p + 2))
            }
        } else {
            Err(position_of(v, t, p))
        }
    }

    /// Reads a query into its statements, followed by `NoStatement` for its end.
    ///
    /// A query that breaks the grammar fails with `SyntaxError` at the first character
    /// that could not be read; otherwise the first statement with another reading error,
    /// in query order, decides the error.
    pub fn parse_sql(query: &str) -> (r: DatabaseResult<Vec<Statement>>)
        requires
            query@.len() + 8 < usize::MAX,
        ensures
            query_matches(r, parse_query(query@)),
    {
        let v = chars_of(query);
        let t = tokenize(&v);
        let ghost target = parse_query(query@);
        let mut p: usize = 0;
        let mut acc: Vec<Statement> = Vec::new();
        let mut sem: Option<(ParsingErr, StatementErr)> = None;
        proof {
            assert(statements_view(acc@) =~= Seq::<StatementView>::empty());
        }
        while p < t.len()
            invariant
                v@ == query@,
                tokens_wf(v@, t@),
                t@ == lex(v@),
                t@.len() + 8 < usize::MAX,
                p <= t@.len(),
                target == parse_query(query@),
                parse_all(v@, t@, p as int, statements_view(acc@), failure_view(sem)) == target,
            decreases t@.len() - p,
        {
            match Self::parse_statement_exec(&v, &t, p) {
                Err(pos) => {
                    return Err(DatabaseErr::ParsingError {
                        error: ParsingErr::SyntaxError(pos),
                        statement: StatementErr::NotSpecified,
                    });
                },
                Ok((outcome, q)) => {
                    if q <= p {
                        return Err(DatabaseErr::ParsingError {
                            error: ParsingErr::SyntaxError(position_of(&v, &t, p)),
                            statement: StatementErr::NotSpecified,
                        });
                    }
                    match outcome {
                        Ok(st) => {
                            let ghost before = statements_view(acc@);
                            acc.push(st);
                            proof {
                                assert(statements_view(acc@) =~= before.push(st@));
                            }
                        },
                        Err(DatabaseErr::ParsingError { error, statement }) => {
                            if sem.is_none() {
                                sem = Some((error, statement));
                            }
                        },
                        Err(DatabaseErr::ExecutionError { .. }) => {},
                    }
                    p = q;
                },
            }
        }
        match sem {
            Some((error, statement)) => Err(DatabaseErr::ParsingError { error, statement }),
            None => {
                let ghost before = statements_view(acc@);
                acc.push(Statement::NoStatement);
                proof {
                    assert(statements_view(acc@) =~= before.push(StatementView::NoStatement));
                }
                Ok(acc)
            },
        }
    }
}

} // verus!
