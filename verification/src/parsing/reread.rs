//! Statements read from a query can be written and read back: their names are single
//! words, their values have a query text, their fields are in order of name. So the
//! query text of any statement `parse_query` gives reads back as that same statement,
//! and a log of such statements can be saved and loaded.
use vstd::prelude::*;
use crate::parsing::grammar::{
    ParseFailure, parse_all, parse_query, parse_statement, parse_defs, parse_assigns, parse_columns, parse_mods,
    is_ident, is_word_at, kind_at, ident_at, text_at, tok_text, from_kw_at, kw_at, value_of, type_at, first_err,
    is_int_literal,
};
use crate::parsing::lexer::{Token, TokenKind, is_word_char, word_end, lex_from, lex, lemma_word_end, lemma_lex_wf};
use crate::parsing::round_trip::{
    is_plain_word, value_writable, decimal_canonical, is_from_kw, law_statement_reads_back,
};
use crate::parsing::replay::{loggable, all_loggable};
use crate::parsing::statements::{StatementView, statement_text};
use crate::model::decimal::{is_float_literal, literal_decimal, point_at, unsigned_part, strip_leading_zeros, strip_trailing_zeros};
use crate::model::field_map::{has_key, insert_by_name, names_sorted};
use crate::model::table::{ValueType, ValueView};
use crate::errors::parsing_err::ParsingErrView;
use crate::text::{all_digits, is_digit};

verus! {

/// Every word token of `t` covers a plain word of `s`.
pub open spec fn words_plain(s: Seq<char>, t: Seq<Token>) -> bool {
    forall|k: int| 0 <= k < t.len() && (#[trigger] t[k]).kind == TokenKind::Word ==> is_plain_word(tok_text(s, t[k]))
}

/// The word tokens of a text cover plain words.
pub proof fn lemma_lex_words(s: Seq<char>, i: int)
    requires
        0 <= i,
        s.len() < usize::MAX,
    ensures
        words_plain(s, lex_from(s, i)),
    decreases s.len() - i,
{
    let r = lex_from(s, i);
    if i >= s.len() {
    } else if crate::parsing::lexer::is_sep(s[i]) {
        lemma_lex_words(s, i + 1);
    } else if s[i] == ':' || s[i] == '=' {
        lemma_lex_words(s, i + 1);
        let rest = lex_from(s, i + 1);
        let kind = if s[i] == ':' { TokenKind::Colon } else { TokenKind::Equals };
        let tk = Token { kind, start: i as usize, end: (i + 1) as usize };
        assert(r == seq![tk] + rest);
        assert forall|k: int| 0 <= k < r.len() && (#[trigger] r[k]).kind == TokenKind::Word implies is_plain_word(
            tok_text(s, r[k]),
        ) by {
            assert(k > 0);
            assert(r[k] == rest[k - 1]);
        }
    } else {
        lemma_word_end(s, i);
        lemma_word_end(s, i + 1);
        let e = word_end(s, i);
        assert(e == word_end(s, i + 1));
        lemma_lex_words(s, e);
        let rest = lex_from(s, e);
        let tk = Token { kind: TokenKind::Word, start: i as usize, end: e as usize };
        assert(r == seq![tk] + rest);
        assert forall|k: int| 0 <= k < r.len() && (#[trigger] r[k]).kind == TokenKind::Word implies is_plain_word(
            tok_text(s, r[k]),
        ) by {
            if k == 0 {
                assert(r[0] == tk);
                let w = tok_text(s, tk);
                assert forall|j: int| 0 <= j < w.len() implies is_word_char(#[trigger] w[j]) by {
                    assert(w[j] == s[i + j]);
                }
            } else {
                assert(r[k] == rest[k - 1]);
            }
        }
    }
}

/// Dropping leading zeros from digits leaves digits that do not start with a zero.
proof fn lemma_strip_leading(x: Seq<char>)
    requires
        all_digits(x),
    ensures
        all_digits(strip_leading_zeros(x)),
        strip_leading_zeros(x).len() == 0 || strip_leading_zeros(x)[0] != '0',
    decreases x.len(),
{
    if x.len() > 0 && x[0] == '0' {
        assert forall|i: int| 0 <= i < x.drop_first().len() implies #[trigger] is_digit(x.drop_first()[i]) by {
            assert(x.drop_first()[i] == x[i + 1]);
        }
        lemma_strip_leading(x.drop_first());
    }
}

/// Dropping trailing zeros from digits leaves digits that do not end with a zero.
proof fn lemma_strip_trailing(x: Seq<char>)
    requires
        all_digits(x),
    ensures
        all_digits(strip_trailing_zeros(x)),
        strip_trailing_zeros(x).len() == 0 || strip_trailing_zeros(x).last() != '0',
    decreases x.len(),
{
    if x.len() > 0 && x.last() == '0' {
        assert forall|i: int| 0 <= i < x.drop_last().len() implies #[trigger] is_digit(x.drop_last()[i]) by {
            assert(x.drop_last()[i] == x[i]);
        }
        lemma_strip_trailing(x.drop_last());
    }
}

/// The number a fractional literal writes is in its usual form.
pub proof fn lemma_literal_canonical(w: Seq<char>)
    requires
        is_float_literal(w),
    ensures
        decimal_canonical(literal_decimal(w)),
{
    let body = unsigned_part(w);
    let d = choose|d: int| point_at(body, d);
    lemma_strip_leading(body.take(d));
    lemma_strip_trailing(body.skip(d + 1));
}

/// The value a plain word stands for can be written.
proof fn lemma_value_writable(w: Seq<char>)
    requires
        is_plain_word(w),
    ensures
        value_of(w) matches Ok(v) ==> value_writable(v),
{
    if !is_int_literal(w) && is_float_literal(w) {
        lemma_literal_canonical(w);
    }
}

/// Putting a new name in its place keeps names in order, adds one entry, and adds no
/// entry but the new one.
pub proof fn lemma_insert_by_name_keeps<A>(s: Seq<(Seq<char>, A)>, e: (Seq<char>, A))
    requires
        names_sorted(s),
        !has_key(s, e.0),
    ensures
        names_sorted(insert_by_name(s, e)),
        insert_by_name(s, e).len() == s.len() + 1,
        forall|k: int| 0 <= k < insert_by_name(s, e).len() ==> #[trigger] insert_by_name(s, e)[k] == e || s.contains(
            insert_by_name(s, e)[k],
        ),
    decreases s.len(),
{
    let r = insert_by_name(s, e);
    if s.len() == 0 {
    } else if crate::text::text_lt(s.last().0, e.0) {
        assert(r == s.push(e));
        assert forall|a: int, b: int| 0 <= a < b < r.len() implies crate::text::text_lt(#[trigger] r[a].0, #[trigger] r[b].0) by {
            if b == s.len() {
                if a < s.len() - 1 {
                    assert(crate::text::text_lt(s[a].0, s[s.len() - 1].0));
                    crate::text::lemma_text_order(s[a].0, s[s.len() - 1].0, e.0);
                }
            } else {
                assert(crate::text::text_lt(s[a].0, s[b].0));
            }
        }
        assert forall|k: int| 0 <= k < r.len() implies #[trigger] r[k] == e || s.contains(r[k]) by {
            if k < s.len() {
                assert(r[k] == s[k]);
            }
        }
    } else {
        let init = s.drop_last();
        let l = s.last();
        assert(names_sorted(init)) by {
            assert forall|a: int, b: int| 0 <= a < b < init.len() implies crate::text::text_lt(#[trigger] init[a].0, #[trigger] init[b].0) by {
                assert(init[a] == s[a] && init[b] == s[b]);
            }
        }
        assert(!has_key(init, e.0)) by {
            if has_key(init, e.0) {
                let i = choose|i: int| 0 <= i < init.len() && #[trigger] init[i].0 == e.0;
                assert(s[i].0 == e.0);
            }
        }
        assert(l.0 != e.0) by {
            assert(s[s.len() - 1].0 == l.0);
        }
        crate::text::lemma_text_order(l.0, e.0, e.0);
        assert(crate::text::text_lt(e.0, l.0));
        lemma_insert_by_name_keeps(init, e);
        let m = insert_by_name(init, e);
        assert(r == m.push(l));
        assert forall|k: int| 0 <= k < m.len() implies crate::text::text_lt(#[trigger] m[k].0, l.0) by {
            if m[k] != e {
                assert(init.contains(m[k]));
                let j = choose|j: int| 0 <= j < init.len() && init[j] == m[k];
                assert(s[j] == init[j]);
                assert(crate::text::text_lt(s[j].0, s[s.len() - 1].0));
            }
        }
        assert forall|a: int, b: int| 0 <= a < b < r.len() implies crate::text::text_lt(#[trigger] r[a].0, #[trigger] r[b].0) by {
            if b == m.len() {
                assert(r[a] == m[a]);
                assert(crate::text::text_lt(m[a].0, l.0));
            } else {
                assert(r[a] == m[a] && r[b] == m[b]);
            }
        }
        assert forall|k: int| 0 <= k < r.len() implies #[trigger] r[k] == e || s.contains(r[k]) by {
            if k == m.len() {
                assert(s[s.len() - 1] == l);
            } else {
                assert(r[k] == m[k]);
                if m[k] != e {
                    assert(init.contains(m[k]));
                    let j = choose|j: int| 0 <= j < init.len() && init[j] == m[k];
                    assert(s[j] == init[j]);
                }
            }
        }
    }
}

/// Entries whose names are names, in increasing order of name.
pub open spec fn entries_good<A>(acc: Seq<(Seq<char>, A)>) -> bool {
    &&& names_sorted(acc)
    &&& forall|i: int| 0 <= i < acc.len() ==> is_ident(#[trigger] acc[i].0)
}

/// Adding an entry with a new name that is a name keeps entries good.
proof fn lemma_add_entry<A>(acc: Seq<(Seq<char>, A)>, e: (Seq<char>, A))
    requires
        entries_good(acc),
        is_ident(e.0),
        !has_key(acc, e.0),
    ensures
        entries_good(insert_by_name(acc, e)),
        insert_by_name(acc, e).len() == acc.len() + 1,
        forall|k: int| 0 <= k < insert_by_name(acc, e).len() ==> #[trigger] insert_by_name(acc, e)[k] == e || acc.contains(
            insert_by_name(acc, e)[k],
        ),
{
    lemma_insert_by_name_keeps(acc, e);
    let r = insert_by_name(acc, e);
    assert forall|i: int| 0 <= i < r.len() implies is_ident(#[trigger] r[i].0) by {
        if r[i] != e {
            let j = choose|j: int| 0 <= j < acc.len() && acc[j] == r[i];
            assert(is_ident(acc[j].0));
        }
    }
}

/// The field definitions read from `q` on: names in order, and at least one more where a
/// definition starts at `q`, unless a reading error was found.
proof fn lemma_defs_good(s: Seq<char>, t: Seq<Token>, q: int, acc: Seq<(Seq<char>, ValueType)>, sem: Option<ParsingErrView>)
    requires
        entries_good(acc),
    ensures
        parse_defs(s, t, q, acc, sem) matches Ok((sch, sem2, q2)) ==> {
            &&& entries_good(sch)
            &&& (sem is Some ==> sem2 is Some)
            &&& (0 <= q && is_word_at(t, q) && kind_at(t, q + 1, TokenKind::Colon) ==> sch.len() > acc.len() || sem2 is Some)
            &&& (0 <= q <= t.len() ==> sch.len() + q <= acc.len() + t.len())
        },
    decreases t.len() - q,
{
    if 0 <= q && is_word_at(t, q) && kind_at(t, q + 1, TokenKind::Colon) && ident_at(s, t, q) {
        if let Some(vt) = type_at(s, t, q + 2) {
            let name = text_at(s, t, q);
            assert(is_word_at(t, q + 2));
            if has_key(acc, name) {
                lemma_defs_good(s, t, q + 3, acc, first_err(sem, ParsingErrView::RepeatedColumn(name)));
            } else {
                lemma_add_entry(acc, (name, vt));
                lemma_defs_good(s, t, q + 3, insert_by_name(acc, (name, vt)), sem);
            }
        }
    }
}

/// The assignments read from `q` on: names in order, values that can be written, and at
/// least one more where an assignment starts at `q`, unless a reading error was found.
proof fn lemma_assigns_good(s: Seq<char>, t: Seq<Token>, q: int, acc: Seq<(Seq<char>, ValueView)>, sem: Option<ParsingErrView>)
    requires
        entries_good(acc),
        forall|i: int| 0 <= i < acc.len() ==> value_writable(#[trigger] acc[i].1),
        words_plain(s, t),
    ensures
        parse_assigns(s, t, q, acc, sem) matches Ok((f, sem2, q2)) ==> {
            &&& entries_good(f)
            &&& (forall|i: int| 0 <= i < f.len() ==> value_writable(#[trigger] f[i].1))
            &&& (sem is Some ==> sem2 is Some)
            &&& (0 <= q && is_word_at(t, q) && kind_at(t, q + 1, TokenKind::Equals) ==> f.len() > acc.len() || sem2 is Some)
            &&& (0 <= q <= t.len() ==> f.len() + q <= acc.len() + t.len())
        },
    decreases t.len() - q,
{
    if 0 <= q && is_word_at(t, q) && kind_at(t, q + 1, TokenKind::Equals) && ident_at(s, t, q) && is_word_at(t, q + 2) {
        let name = text_at(s, t, q);
        let w = text_at(s, t, q + 2);
        assert(t[q + 2].kind == TokenKind::Word);
        assert(is_plain_word(w));
        lemma_value_writable(w);
        match value_of(w) {
            Err(e) => {
                lemma_assigns_good(s, t, q + 3, acc, first_err(sem, e));
            },
            Ok(v) => {
                if has_key(acc, name) {
                    lemma_assigns_good(s, t, q + 3, acc, first_err(sem, ParsingErrView::RepeatedColumn(name)));
                } else {
                    lemma_add_entry(acc, (name, v));
                    let r = insert_by_name(acc, (name, v));
                    assert forall|i: int| 0 <= i < r.len() implies value_writable(#[trigger] r[i].1) by {
                        if r[i] != (name, v) {
                            let j = choose|j: int| 0 <= j < acc.len() && acc[j] == r[i];
                            assert(value_writable(acc[j].1));
                        }
                    }
                    lemma_assigns_good(s, t, q + 3, r, sem);
                }
            },
        }
    }
}

/// The columns read from `q` on are names other than `FROM`, at least one more where a
/// column starts at `q`.
proof fn lemma_columns_good(s: Seq<char>, t: Seq<Token>, q: int, acc: Seq<Seq<char>>)
    requires
        forall|i: int| 0 <= i < acc.len() ==> is_ident(#[trigger] acc[i]) && !is_from_kw(acc[i]),
    ensures
        parse_columns(s, t, q, acc) matches Ok((rows, q2)) ==> {
            &&& forall|i: int| 0 <= i < rows.len() ==> is_ident(#[trigger] rows[i]) && !is_from_kw(rows[i])
            &&& (0 <= q && is_word_at(t, q) && !from_kw_at(s, t, q) ==> rows.len() > acc.len())
            &&& rows.len() >= acc.len()
        },
    decreases t.len() - q,
{
    if 0 <= q && is_word_at(t, q) && !from_kw_at(s, t, q) && ident_at(s, t, q) {
        let w = text_at(s, t, q);
        let a2 = acc.push(w);
        assert forall|i: int| 0 <= i < a2.len() implies is_ident(#[trigger] a2[i]) && !is_from_kw(a2[i]) by {
            if i < acc.len() {
                assert(a2[i] == acc[i]);
            }
        }
        lemma_columns_good(s, t, q + 1, a2);
    }
}

/// The `ORDER_BY` field read from `q` on is a name.
proof fn lemma_mods_good(
    s: Seq<char>,
    t: Seq<Token>,
    q: int,
    limit: Option<u64>,
    ob: Option<Seq<char>>,
    sem: Option<ParsingErrView>,
)
    requires
        ob matches Some(o) ==> is_ident(o),
    ensures
        parse_mods(s, t, q, limit, ob, sem) matches Ok((l2, ob2, sem2, q2)) ==> (ob2 matches Some(o) ==> is_ident(o)),
    decreases t.len() - q,
{
    if 0 <= q && kw_at(s, t, q, "LIMIT"@) {
        if is_word_at(t, q + 1) && text_at(s, t, q + 1).len() > 0 && all_digits(text_at(s, t, q + 1)) {
            let w = text_at(s, t, q + 1);
            if w.len() > 0 && crate::text::digits_val(w) > u64::MAX {
                lemma_mods_good(s, t, q + 2, limit, ob, first_err(sem, ParsingErrView::ParsingFromString(w, ValueType::Int)));
            } else if limit is Some {
                lemma_mods_good(s, t, q + 2, limit, ob, first_err(sem, ParsingErrView::RepeatedModifier));
            } else {
                lemma_mods_good(s, t, q + 2, Some(crate::text::digits_val(w) as u64), ob, sem);
            }
        }
    } else if 0 <= q && kw_at(s, t, q, "ORDER_BY"@) {
        if ident_at(s, t, q + 1) {
            if ob is Some {
                lemma_mods_good(s, t, q + 2, limit, ob, first_err(sem, ParsingErrView::RepeatedModifier));
            } else {
                lemma_mods_good(s, t, q + 2, limit, Some(text_at(s, t, q + 1)), sem);
            }
        }
    }
}

/// A statement read from tokens whose words are plain can be written and read back.
proof fn lemma_statement_loggable(s: Seq<char>, t: Seq<Token>, p: int)
    requires
        words_plain(s, t),
        t.len() < usize::MAX,
    ensures
        parse_statement(s, t, p) matches Ok((Ok(st), q)) ==> loggable(st) && !(st is NoStatement),
{
    if is_word_at(t, p) {
        if kw_at(s, t, p, "CREATE"@) || kw_at(s, t, p, "C"@) {
            let e = Seq::<(Seq<char>, ValueType)>::empty();
            lemma_defs_good(s, t, p + 5, e, None);
            lemma_defs_good(s, t, p + 1 + 4, e, None);
        } else if kw_at(s, t, p, "INSERT"@) || kw_at(s, t, p, "I"@) {
            let e = Seq::<(Seq<char>, ValueView)>::empty();
            lemma_assigns_good(s, t, p + 1, e, None);
        } else if kw_at(s, t, p, "DELETE"@) || kw_at(s, t, p, "D"@) {
            if is_word_at(t, p + 1) {
                assert(t[p + 1].kind == TokenKind::Word);
            }
        } else if kw_at(s, t, p, "SELECT"@) {
            let q0 = p + 1;
            lemma_columns_good(s, t, q0, Seq::empty());
            if let Ok((rows, q)) = (if is_word_at(t, q0) && text_at(s, t, q0) == seq!['*'] {
                Ok::<(Seq<Seq<char>>, int), nat>((Seq::empty(), q0 + 1))
            } else if !(is_word_at(t, q0) && !from_kw_at(s, t, q0)) {
                Err::<(Seq<Seq<char>>, int), nat>(0)
            } else {
                parse_columns(s, t, q0, Seq::empty())
            }) {
                lemma_mods_good(s, t, q + 2, None, None, None);
            }
        } else {
            if is_word_at(t, p + 1) {
                assert(t[p + 1].kind == TokenKind::Word);
            }
        }
    }
}

/// Every statement read from tokens whose words are plain can be written and read back.
proof fn lemma_all_loggable(
    s: Seq<char>,
    t: Seq<Token>,
    p: int,
    acc: Seq<StatementView>,
    sem: Option<ParseFailure>,
)
    requires
        words_plain(s, t),
        t.len() < usize::MAX,
        all_loggable(acc),
    ensures
        parse_all(s, t, p, acc, sem) matches Ok(v) ==> all_loggable(v),
    decreases t.len() - p,
{
    if p < 0 || p >= t.len() {
        let v = acc.push(StatementView::NoStatement);
        assert forall|i: int| 0 <= i < v.len() implies loggable(#[trigger] v[i]) by {
            if i < acc.len() {
                assert(v[i] == acc[i]);
            }
        }
    } else {
        lemma_statement_loggable(s, t, p);
        if let Ok((r, q)) = parse_statement(s, t, p) {
            if q > p && q <= t.len() {
                match r {
                    Ok(st) => {
                        let a2 = acc.push(st);
                        assert forall|i: int| 0 <= i < a2.len() implies loggable(#[trigger] a2[i]) by {
                            if i < acc.len() {
                                assert(a2[i] == acc[i]);
                            }
                        }
                        lemma_all_loggable(s, t, q, a2, sem);
                    },
                    Err(f) => {
                        lemma_all_loggable(s, t, q, acc, match sem {
                            Some(x) => Some(x),
                            None => Some(f),
                        });
                    },
                }
            }
        }
    }
}

/// Every statement that reading a query gives can be written and read back: its names
/// are single words, its values have a query text, its fields are in order of name.
pub proof fn law_parsed_statements_loggable(s: Seq<char>)
    requires
        s.len() < usize::MAX,
    ensures
        parse_query(s) matches Ok(v) ==> all_loggable(v),
{
    lemma_lex_wf(s, 0);
    lemma_lex_words(s, 0);
    lemma_all_loggable(s, lex(s), 0, Seq::empty(), None);
}

/// The query text of every statement read from a query (what `to_query` gives) reads
/// back as that same statement, followed by the end of the query.
pub proof fn law_parsed_statement_reads_back(s: Seq<char>, v: Seq<StatementView>, i: int)
    requires
        s.len() < usize::MAX,
        parse_query(s) == Ok::<Seq<StatementView>, ParseFailure>(v),
        0 <= i < v.len(),
        statement_text(v[i]).len() < usize::MAX,
    ensures
        v[i] is NoStatement ==> parse_query(statement_text(v[i])) == Ok::<Seq<StatementView>, ParseFailure>(
            seq![StatementView::NoStatement],
        ),
        !(v[i] is NoStatement) ==> parse_query(statement_text(v[i])) == Ok::<Seq<StatementView>, ParseFailure>(
            seq![v[i], StatementView::NoStatement],
        ),
{
    law_parsed_statements_loggable(s);
    assert(loggable(v[i]));
    if v[i] is NoStatement {
        let e = statement_text(v[i]);
        assert(e =~= Seq::<char>::empty());
        assert(lex(e) =~= Seq::<Token>::empty());
        assert(Seq::<StatementView>::empty().push(StatementView::NoStatement) =~= seq![StatementView::NoStatement]);
    } else {
        law_statement_reads_back(v[i]);
    }
}

} // verus!
