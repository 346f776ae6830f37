//! Saving and loading a session: the text `SAVE_AS` writes (one statement per line) reads
//! back as the statements of the log, and running them on a fresh database can rebuild
//! the tables the session had.
use vstd::prelude::*;
use crate::parsing::grammar::{ParseFailure, parse_all, parse_query};
use crate::parsing::lexer::{Token, TokenKind, is_word_char, lex};
use crate::parsing::round_trip::{
    Piece, pieces_text, items, pieces_ok, piece_ok, tokens_read, items_at, stops_statement, layout_ok,
    is_plain_word, statement_writable, lemma_pieces_text_concat, lemma_items_concat, lemma_read_pieces,
    lemma_kw_differs, lemma_push_piece,
    delete_pieces, delete_items, path_pieces, select_pieces, select_items, create_pieces, create_items,
    insert_pieces, insert_items, select_cols_items, word_items, assigns_items,
    lemma_delete_layout, lemma_path_layout, lemma_select_layout, lemma_create_layout, lemma_insert_layout,
    lemma_delete_parse_at, lemma_read_parse_at, lemma_save_parse_at, lemma_select_parse_at,
    lemma_create_parse_at, lemma_insert_parse_at,
};
use crate::parsing::statements::{StatementView, statement_text};
use crate::model::commands::save_command::log_text;
use crate::model::database::{DatabaseKey, DatabaseView};
use crate::model::table::TableView;
use crate::parsing::runner::{Action, Outcome, run_result, step_result, with_log};
use crate::laws::{law_refused_statement_changes_nothing, record_keys_distinct, lemma_insert_distinct};
use crate::model::field_map::{has_key, key_index, keys_distinct, lookup};
use crate::model::table::{RecordView, has_record_key, value_type};
use crate::model::commands::create_command::{create_result, created_table};
use crate::model::commands::insert_command::{insert_db_result, insert_result, insert_header_ok, fields_fit, field_fits, without_field};
use crate::model::commands::delete_command::{delete_db_result, delete_result};
use crate::model::commands::select_command::{select_result, select_columns, columns_known};
use crate::errors::{DatabaseErr, DatabaseResult, ExecutionErr, ExecutionResult};
use crate::parsing::statements::{CreateStView, InsertStView, DeleteStView};

verus! {

/// The pieces of a statement's text.
pub open spec fn statement_pieces(st: StatementView) -> Seq<Piece> {
    match st {
        StatementView::NoStatement => Seq::empty(),
        StatementView::Create(c) => create_pieces(c),
        StatementView::Insert(i) => insert_pieces(i),
        StatementView::Delete(d) => delete_pieces(d),
        StatementView::Select(s) => select_pieces(s),
        StatementView::Read(p) => path_pieces("READ_FROM"@, p),
        StatementView::Save(p) => path_pieces("SAVE_AS"@, p),
    }
}

/// The tokens of a statement's text, as kinds and texts.
pub open spec fn statement_items(st: StatementView) -> Seq<(TokenKind, Seq<char>)> {
    match st {
        StatementView::NoStatement => Seq::empty(),
        StatementView::Create(c) => create_items(c),
        StatementView::Insert(i) => insert_items(i),
        StatementView::Delete(d) => delete_items(d),
        StatementView::Select(s) => select_items(s),
        StatementView::Read(p) => seq![(TokenKind::Word, "READ_FROM"@), (TokenKind::Word, p)],
        StatementView::Save(p) => seq![(TokenKind::Word, "SAVE_AS"@), (TokenKind::Word, p)],
    }
}

/// A statement that a saved log can hold and read back: the end of a query, or a
/// statement whose names and values can be written.
pub open spec fn loggable(st: StatementView) -> bool {
    ||| st is NoStatement
    ||| {
        &&& statement_writable(st)
        &&& st matches StatementView::Create(c) ==> c.schema.len() <= usize::MAX
        &&& st matches StatementView::Insert(i) ==> i.fields.len() <= usize::MAX
    }
}

/// Every statement of `log` is loggable.
pub open spec fn all_loggable(log: Seq<StatementView>) -> bool {
    forall|i: int| 0 <= i < log.len() ==> loggable(#[trigger] log[i])
}

/// The pieces of a log's text: each statement followed by a line break.
pub open spec fn log_pieces(log: Seq<StatementView>) -> Seq<Piece>
    decreases log.len(),
{
    if log.len() == 0 {
        Seq::empty()
    } else {
        log_pieces(log.drop_last()) + statement_pieces(log.last()) + seq![Piece::Sep('\n')]
    }
}

/// The tokens of a log's text, statement by statement.
pub open spec fn log_items(log: Seq<StatementView>) -> Seq<(TokenKind, Seq<char>)>
    decreases log.len(),
{
    if log.len() == 0 {
        Seq::empty()
    } else {
        log_items(log.drop_last()) + statement_items(log.last())
    }
}

/// The statements of a log other than the ends of queries, in order.
pub open spec fn spoken(log: Seq<StatementView>) -> Seq<StatementView>
    decreases log.len(),
{
    if log.len() == 0 {
        Seq::empty()
    } else if log.last() is NoStatement {
        spoken(log.drop_last())
    } else {
        spoken(log.drop_last()).push(log.last())
    }
}

proof fn lemma_keyword_plain(k: Seq<char>)
    requires
        k.len() > 0,
        forall|i: int| 0 <= i < k.len() ==> ('A' <= #[trigger] k[i] && k[i] <= 'Z') || k[i] == '_',
    ensures
        is_plain_word(k),
{
    assert forall|i: int| 0 <= i < k.len() implies is_word_char(#[trigger] k[i]) by {}
}

/// The text of a loggable statement is that of its pieces, and its tokens are its items.
pub proof fn lemma_statement_layout(st: StatementView)
    requires
        loggable(st),
        !(st is NoStatement),
    ensures
        layout_ok(statement_pieces(st), statement_text(st), statement_items(st)),
{
    match st {
        StatementView::NoStatement => {},
        StatementView::Create(c) => lemma_create_layout(c),
        StatementView::Insert(i) => lemma_insert_layout(i),
        StatementView::Delete(d) => lemma_delete_layout(d),
        StatementView::Select(s) => lemma_select_layout(s),
        StatementView::Read(p) => {
            reveal_strlit("READ_FROM");
            reveal_strlit("READ_FROM ");
            lemma_keyword_plain("READ_FROM"@);
            lemma_path_layout("READ_FROM"@, p);
            assert(statement_text(st) =~= "READ_FROM"@ + seq![' '] + p);
        },
        StatementView::Save(p) => {
            reveal_strlit("SAVE_AS");
            reveal_strlit("SAVE_AS ");
            lemma_keyword_plain("SAVE_AS"@);
            lemma_path_layout("SAVE_AS"@, p);
            assert(statement_text(st) =~= "SAVE_AS"@ + seq![' '] + p);
        },
    }
}

/// Joining well-made pieces where the first part does not end in a word.
proof fn lemma_pieces_ok_concat(a: Seq<Piece>, b: Seq<Piece>)
    requires
        pieces_ok(a),
        pieces_ok(b),
        a.len() == 0 || b.len() == 0 || !(a.last() is Word && b[0] is Word),
    ensures
        pieces_ok(a + b),
{
    let c = a + b;
    assert forall|i: int| 0 <= i < c.len() implies piece_ok(#[trigger] c[i]) by {
        if i < a.len() {
            assert(c[i] == a[i]);
        } else {
            assert(c[i] == b[i - a.len()]);
        }
    }
    assert forall|i: int| 0 <= i < c.len() - 1 implies !(#[trigger] c[i] is Word && c[i + 1] is Word) by {
        if i < a.len() - 1 {
            assert(c[i] == a[i] && c[i + 1] == a[i + 1]);
        } else if i == a.len() - 1 {
            assert(c[i] == a.last());
            assert(c[i + 1] == b[0]);
        } else {
            assert(c[i] == b[i - a.len()] && c[i + 1] == b[i + 1 - a.len()]);
        }
    }
}

/// A line break alone: its text, and no tokens.
proof fn lemma_line_break()
    ensures
        pieces_text(seq![Piece::Sep('\n')]) == "\n"@,
        items(seq![Piece::Sep('\n')]) == Seq::<(TokenKind, Seq<char>)>::empty(),
        pieces_ok(seq![Piece::Sep('\n')]),
{
    let nl = seq![Piece::Sep('\n')];
    lemma_push_piece(Seq::<Piece>::empty(), Piece::Sep('\n'));
    assert(Seq::<Piece>::empty().push(Piece::Sep('\n')) =~= nl);
    reveal_strlit("\n");
    assert(pieces_text(nl) =~= "\n"@);
    assert(items(nl) =~= Seq::<(TokenKind, Seq<char>)>::empty());
    assert(piece_ok(nl[0]));
}

/// One line of a log: a statement's pieces and a line break after well-made pieces.
proof fn lemma_line(a: Seq<Piece>, b: Seq<Piece>, text: Seq<char>, its: Seq<(TokenKind, Seq<char>)>)
    requires
        pieces_ok(a),
        a.len() == 0 || !(a.last() is Word),
        pieces_ok(b),
        pieces_text(b) == text,
        items(b) == its,
    ensures
        pieces_text(a + b + seq![Piece::Sep('\n')]) == pieces_text(a) + text + "\n"@,
        items(a + b + seq![Piece::Sep('\n')]) == items(a) + its,
        pieces_ok(a + b + seq![Piece::Sep('\n')]),
        !((a + b + seq![Piece::Sep('\n')]).last() is Word),
{
    let nl = seq![Piece::Sep('\n')];
    lemma_line_break();
    lemma_pieces_text_concat(a, b);
    lemma_pieces_text_concat(a + b, nl);
    lemma_items_concat(a, b);
    lemma_items_concat(a + b, nl);
    assert(items(a) + its + Seq::<(TokenKind, Seq<char>)>::empty() =~= items(a) + its);
    lemma_pieces_ok_concat(a, b);
    assert(nl[0] == Piece::Sep('\n'));
    lemma_pieces_ok_concat(a + b, nl);
    assert((a + b + nl).last() == Piece::Sep('\n'));
}

/// The text of a log of loggable statements is that of its pieces, which are well made,
/// and its tokens are the statements' items.
pub proof fn lemma_log_layout(log: Seq<StatementView>)
    requires
        all_loggable(log),
    ensures
        pieces_text(log_pieces(log)) == log_text(log),
        items(log_pieces(log)) == log_items(log),
        pieces_ok(log_pieces(log)),
        log_pieces(log).len() == 0 || !(log_pieces(log).last() is Word),
    decreases log.len(),
{
    if log.len() > 0 {
        let init = log.drop_last();
        assert(all_loggable(init)) by {
            assert forall|i: int| 0 <= i < init.len() implies loggable(#[trigger] init[i]) by {
                assert(init[i] == log[i]);
            }
        }
        assert(loggable(log[log.len() - 1]));
        lemma_log_layout(init);
        let st = log.last();
        if st is NoStatement {
            assert(pieces_text(statement_pieces(st)) =~= statement_text(st));
            assert(items(statement_pieces(st)) =~= statement_items(st));
        } else {
            lemma_statement_layout(st);
        }
        lemma_line(log_pieces(init), statement_pieces(st), statement_text(st), statement_items(st));
    }
}

/// The items of two logs one after the other.
pub proof fn lemma_log_items_concat(a: Seq<StatementView>, b: Seq<StatementView>)
    ensures
        log_items(a + b) == log_items(a) + log_items(b),
    decreases b.len(),
{
    if b.len() == 0 {
        assert(a + b =~= a);
        assert(log_items(a) + log_items(b) =~= log_items(a));
    } else {
        lemma_log_items_concat(a, b.drop_last());
        assert((a + b).drop_last() =~= a + b.drop_last());
        assert(log_items(a + b) =~= log_items(a) + log_items(b));
    }
}

/// The spoken statements of two logs one after the other.
pub proof fn lemma_spoken_concat(a: Seq<StatementView>, b: Seq<StatementView>)
    ensures
        spoken(a + b) == spoken(a) + spoken(b),
    decreases b.len(),
{
    if b.len() == 0 {
        assert(a + b =~= a);
        assert(spoken(a) + spoken(b) =~= spoken(a));
    } else {
        lemma_spoken_concat(a, b.drop_last());
        assert((a + b).drop_last() =~= a + b.drop_last());
        assert(spoken(a + b) =~= spoken(a) + spoken(b));
    }
}

/// The keywords that start a statement's text.
pub open spec fn leading_keyword(w: Seq<char>) -> bool {
    w == "CREATE"@ || w == "INSERT"@ || w == "DELETE"@ || w == "SELECT"@ || w == "READ_FROM"@ || w == "SAVE_AS"@
}

/// The tokens of a loggable statement other than the end start with its keyword, then a word.
proof fn lemma_statement_head(st: StatementView)
    requires
        loggable(st),
        !(st is NoStatement),
    ensures
        statement_items(st).len() >= 2,
        statement_items(st)[0].0 == TokenKind::Word,
        leading_keyword(statement_items(st)[0].1),
        statement_items(st)[1].0 == TokenKind::Word,
{
    match st {
        StatementView::Create(c) => {
            assert(create_items(c)[1] == (TokenKind::Word, c.table_name));
        },
        StatementView::Insert(i) => {
            crate::parsing::round_trip::lemma_assigns_items(i.fields);
            let f0 = i.fields[0];
            assert(assigns_items(i.fields)[3 * 0int] == (TokenKind::Word, f0.0));
            assert(insert_items(i)[1] == assigns_items(i.fields)[0]);
        },
        StatementView::Select(s) => {
            if !s.all_rows {
                assert(select_items(s)[1] == word_items(s.rows)[0]);
                assert(word_items(s.rows)[0] == (TokenKind::Word, s.rows[0]));
            } else {
                assert(select_items(s)[1] == select_cols_items(s)[0]);
            }
        },
        _ => {},
    }
}

/// What follows the tokens of the first statements of a loggable log: nothing, or the
/// keyword of the next statement and a word.
proof fn lemma_log_head(log: Seq<StatementView>)
    requires
        all_loggable(log),
    ensures
        log_items(log).len() == 0 || (log_items(log).len() >= 2 && log_items(log)[0].0 == TokenKind::Word
            && leading_keyword(log_items(log)[0].1) && log_items(log)[1].0 == TokenKind::Word),
    decreases log.len(),
{
    if log.len() > 0 {
        let first = seq![log[0]];
        let rest = log.drop_first();
        assert(first + rest =~= log);
        lemma_log_items_concat(first, rest);
        assert(first.drop_last() =~= Seq::<StatementView>::empty());
        assert(first.last() == log[0]);
        assert(log_items(first.drop_last()) =~= Seq::<(TokenKind, Seq<char>)>::empty());
        assert(log_items(first) =~= statement_items(log[0]));
        assert(all_loggable(rest)) by {
            assert forall|i: int| 0 <= i < rest.len() implies loggable(#[trigger] rest[i]) by {
                assert(rest[i] == log[i + 1]);
            }
        }
        assert(loggable(log[0]));
        if log[0] is NoStatement {
            assert(log_items(log) =~= log_items(rest));
            lemma_log_head(rest);
        } else {
            lemma_statement_head(log[0]);
            assert(log_items(log)[0] == statement_items(log[0])[0]);
            assert(log_items(log)[1] == statement_items(log[0])[1]);
        }
    }
}

/// A keyword that starts a statement ends the one before.
proof fn lemma_keyword_stops(its: Seq<(TokenKind, Seq<char>)>, k: int)
    requires
        0 <= k,
        k + 1 < its.len(),
        its[k].0 == TokenKind::Word,
        leading_keyword(its[k].1),
        its[k + 1].0 == TokenKind::Word,
    ensures
        stops_statement(its, k),
{
    reveal_strlit("CREATE");
    reveal_strlit("INSERT");
    reveal_strlit("DELETE");
    reveal_strlit("SELECT");
    reveal_strlit("READ_FROM");
    reveal_strlit("SAVE_AS");
    reveal_strlit("LIMIT");
    reveal_strlit("ORDER_BY");
    lemma_kw_differs(its[k].1, "LIMIT"@, 0);
    lemma_kw_differs(its[k].1, "ORDER_BY"@, 0);
}

/// A loggable statement other than the end, whose tokens stand at `p` and are followed by
/// the end or by another statement, parses as itself.
proof fn lemma_statement_parse_at(s: Seq<char>, t: Seq<Token>, its: Seq<(TokenKind, Seq<char>)>, p: int, st: StatementView)
    requires
        tokens_read(s, t, its),
        items_at(its, p, statement_items(st)),
        stops_statement(its, p + statement_items(st).len()),
        loggable(st),
        !(st is NoStatement),
    ensures
        crate::parsing::grammar::parse_statement(s, t, p) == Ok::<(Result<StatementView, ParseFailure>, int), nat>(
            (Ok(st), p + statement_items(st).len()),
        ),
{
    match st {
        StatementView::NoStatement => {},
        StatementView::Create(c) => lemma_create_parse_at(s, t, its, p, c),
        StatementView::Insert(i) => lemma_insert_parse_at(s, t, its, p, i),
        StatementView::Delete(d) => lemma_delete_parse_at(s, t, its, p, d),
        StatementView::Select(x) => lemma_select_parse_at(s, t, its, p, x),
        StatementView::Read(x) => lemma_read_parse_at(s, t, its, p, x),
        StatementView::Save(x) => lemma_save_parse_at(s, t, its, p, x),
    }
}

/// Parsing the tokens of a loggable log from the start of its `k`-th statement gives the
/// spoken statements from there on, after those already read.
proof fn lemma_parse_log(s: Seq<char>, t: Seq<Token>, log: Seq<StatementView>, k: int, acc: Seq<StatementView>)
    requires
        tokens_read(s, t, log_items(log)),
        all_loggable(log),
        0 <= k <= log.len(),
    ensures
        parse_all(s, t, log_items(log.take(k)).len() as int, acc, None) == Ok::<Seq<StatementView>, ParseFailure>(
            (acc + spoken(log.skip(k))).push(StatementView::NoStatement),
        ),
    decreases log.len() - k,
{
    let its = log_items(log);
    let p = log_items(log.take(k)).len() as int;
    if k == log.len() {
        assert(log.take(k) =~= log);
        assert(log.skip(k) =~= Seq::<StatementView>::empty());
        assert(acc + spoken(log.skip(k)) =~= acc);
    } else {
        let st = log[k];
        let rest = log.skip(k + 1);
        assert(log.take(k + 1) =~= log.take(k).push(st));
        assert(log.take(k + 1).drop_last() =~= log.take(k));
        assert(log_items(log.take(k + 1)) == log_items(log.take(k)) + statement_items(st));
        assert(log.take(k + 1) + rest =~= log);
        lemma_log_items_concat(log.take(k + 1), rest);
        assert(log.skip(k) =~= seq![st] + rest);
        lemma_spoken_concat(seq![st], rest);
        assert(seq![st].drop_last() =~= Seq::<StatementView>::empty());
        assert(seq![st].last() == st);
        assert(spoken(Seq::<StatementView>::empty()) =~= Seq::<StatementView>::empty());
        assert(loggable(log[k]));
        lemma_parse_log(s, t, log, k + 1, if st is NoStatement { acc } else { acc.push(st) });
        if st is NoStatement {
            assert(spoken(seq![st]) =~= Seq::<StatementView>::empty());
            assert(statement_items(st) =~= Seq::<(TokenKind, Seq<char>)>::empty());
            assert(log_items(log.take(k)) + statement_items(st) =~= log_items(log.take(k)));
            assert(acc + spoken(log.skip(k)) =~= acc + spoken(rest));
        } else {
            let xs = statement_items(st);
            assert(spoken(seq![st]) =~= seq![st]);
            assert(its =~= log_items(log.take(k)) + xs + log_items(rest));
            lemma_statement_head(st);
            assert(items_at(its, p, xs));
            let q = p + xs.len();
            assert(all_loggable(rest)) by {
                assert forall|i: int| 0 <= i < rest.len() implies loggable(#[trigger] rest[i]) by {
                    assert(rest[i] == log[k + 1 + i]);
                }
            }
            lemma_log_head(rest);
            if q < its.len() {
                assert(its[q] == log_items(rest)[0]);
                assert(its[q + 1] == log_items(rest)[1]);
                lemma_keyword_stops(its, q);
            }
            lemma_statement_parse_at(s, t, its, p, st);
            assert(acc.push(st) + spoken(rest) =~= acc + spoken(log.skip(k)));
        }
    }
}

/// Saving and loading: the text `SAVE_AS` writes for a log of loggable statements reads
/// back as the statements of the log, the ends of queries left out, followed by the end.
pub proof fn law_log_reads_back(log: Seq<StatementView>)
    requires
        all_loggable(log),
        log_text(log).len() < usize::MAX,
    ensures
        parse_query(log_text(log)) == Ok::<Seq<StatementView>, ParseFailure>(
            spoken(log).push(StatementView::NoStatement),
        ),
{
    lemma_log_layout(log);
    let s = log_text(log);
    lemma_read_pieces(log_pieces(log));
    lemma_parse_log(s, lex(s), log, 0, Seq::empty());
    assert(log.take(0) =~= Seq::<StatementView>::empty());
    assert(log.skip(0) =~= log);
    assert(Seq::<StatementView>::empty() + spoken(log) =~= spoken(log));
}

/// Running `st` on a database with tables `before` finishes without error and leaves the
/// tables `after`. A `SAVE_AS` writes a file and leaves the tables as they are; a
/// `READ_FROM` does not count, as the statements of its file count one by one.
pub open spec fn runs_cleanly<K: DatabaseKey>(
    before: Seq<(Seq<char>, TableView<K::V>)>,
    st: StatementView,
    after: Seq<(Seq<char>, TableView<K::V>)>,
) -> bool {
    match st {
        StatementView::Read(_) => false,
        StatementView::Save(_) => after == before,
        _ => exists|log: Seq<StatementView>, o: Option<String>|
            #[trigger] run_result::<K>(
                DatabaseView { tables: before, log },
                DatabaseView { tables: after, log },
                st,
                Ok(Outcome::Output(o)),
            ),
    }
}

/// `states` are the tables before each statement of `log` and after the last, each
/// statement running cleanly from the tables before it to those after it.
pub open spec fn replay_chain<K: DatabaseKey>(
    states: Seq<Seq<(Seq<char>, TableView<K::V>)>>,
    log: Seq<StatementView>,
) -> bool {
    &&& states.len() == log.len() + 1
    &&& forall|i: int| 0 <= i < log.len() ==> #[trigger] runs_cleanly::<K>(states[i], log[i], states[i + 1])
}

/// Running the statements of `log` in order on a database with tables `start`, each
/// without error, can end with the tables `end`.
pub open spec fn replays<K: DatabaseKey>(
    start: Seq<(Seq<char>, TableView<K::V>)>,
    log: Seq<StatementView>,
    end: Seq<(Seq<char>, TableView<K::V>)>,
) -> bool {
    exists|states: Seq<Seq<(Seq<char>, TableView<K::V>)>>|
        #[trigger] replay_chain::<K>(states, log) && states[0] == start && states.last() == end
}

/// Nothing run: the tables stay as they are.
pub proof fn lemma_replay_empty<K: DatabaseKey>(start: Seq<(Seq<char>, TableView<K::V>)>)
    ensures
        replays::<K>(start, Seq::empty(), start),
{
    let states = seq![start];
    assert(replay_chain::<K>(states, Seq::empty()));
}

/// One more statement run cleanly extends a replay.
pub proof fn lemma_replay_push<K: DatabaseKey>(
    start: Seq<(Seq<char>, TableView<K::V>)>,
    log: Seq<StatementView>,
    mid: Seq<(Seq<char>, TableView<K::V>)>,
    st: StatementView,
    end: Seq<(Seq<char>, TableView<K::V>)>,
)
    requires
        replays::<K>(start, log, mid),
        runs_cleanly::<K>(mid, st, end),
    ensures
        replays::<K>(start, log.push(st), end),
{
    let states = choose|states: Seq<Seq<(Seq<char>, TableView<K::V>)>>|
        #[trigger] replay_chain::<K>(states, log) && states[0] == start && states.last() == mid;
    let s2 = states.push(end);
    let l2 = log.push(st);
    assert forall|i: int| 0 <= i < l2.len() implies #[trigger] runs_cleanly::<K>(s2[i], l2[i], s2[i + 1]) by {
        if i < log.len() {
            assert(s2[i] == states[i] && s2[i + 1] == states[i + 1] && l2[i] == log[i]);
        } else {
            assert(s2[i] == mid && s2[i + 1] == end && l2[i] == st);
        }
    }
    assert(replay_chain::<K>(s2, l2));
}

/// A replay of a log with a last statement passes through the tables before it.
pub proof fn lemma_replay_last<K: DatabaseKey>(
    start: Seq<(Seq<char>, TableView<K::V>)>,
    log: Seq<StatementView>,
    end: Seq<(Seq<char>, TableView<K::V>)>,
) -> (mid: Seq<(Seq<char>, TableView<K::V>)>)
    requires
        replays::<K>(start, log, end),
        log.len() > 0,
    ensures
        replays::<K>(start, log.drop_last(), mid),
        runs_cleanly::<K>(mid, log.last(), end),
{
    let states = choose|states: Seq<Seq<(Seq<char>, TableView<K::V>)>>|
        #[trigger] replay_chain::<K>(states, log) && states[0] == start && states.last() == end;
    let s1 = states.drop_last();
    let l1 = log.drop_last();
    let n = l1.len() as int;
    assert forall|i: int| 0 <= i < l1.len() implies #[trigger] runs_cleanly::<K>(s1[i], l1[i], s1[i + 1]) by {
        assert(runs_cleanly::<K>(states[i], log[i], states[i + 1]));
    }
    assert(replay_chain::<K>(s1, l1));
    assert(runs_cleanly::<K>(states[n], log[n], states[n + 1]));
    s1.last()
}

/// Every step of a query keeps this: running the log of the database on a fresh database
/// can rebuild its tables. A statement done without error is logged, and so is a
/// `SAVE_AS`, which leaves the tables as they are; a refused statement and a `READ_FROM`
/// leave the database as it was.
pub proof fn law_step_keeps_replay<K: DatabaseKey>(
    db: DatabaseView<K::V>,
    new: DatabaseView<K::V>,
    st: StatementView,
    outs: Seq<Seq<char>>,
    new_outs: Seq<Seq<char>>,
    a: Action,
)
    requires
        replays::<K>(Seq::empty(), db.log, db.tables),
        step_result::<K>(db, new, st, outs, new_outs, a),
    ensures
        replays::<K>(Seq::empty(), new.log, new.tables),
{
    match a {
        Action::Continue => {
            let before = DatabaseView { tables: db.tables, log: db.log };
            let after = DatabaseView { tables: new.tables, log: db.log };
            assert(before == db);
            assert(after == with_log(new, db.log));
            assert(new.log.drop_last() =~= db.log);
            assert(new.log.last() == st);
            if run_result::<K>(db, with_log(new, db.log), st, Ok(Outcome::Output(None))) {
                assert(run_result::<K>(before, after, st, Ok(Outcome::Output(None))));
            } else {
                let s = choose|s: String|
                    #[trigger] run_result::<K>(db, with_log(new, db.log), st, Ok(Outcome::Output(Some(s))));
                assert(run_result::<K>(before, after, st, Ok(Outcome::Output(Some(s)))));
            }
            assert(runs_cleanly::<K>(db.tables, st, new.tables));
            lemma_replay_push::<K>(Seq::empty(), db.log, db.tables, st, new.tables);
        },
        Action::Finished(Err(e)) => {
            law_refused_statement_changes_nothing::<K>(db, new, st, Err(e));
        },
        Action::WriteFile(ss, text) => {
            assert(runs_cleanly::<K>(db.tables, st, db.tables));
            lemma_replay_push::<K>(Seq::empty(), db.log, db.tables, st, new.tables);
        },
        _ => {},
    }
}

/// Leaving out the ends of queries changes nothing of what a replay can rebuild.
proof fn lemma_replay_spoken<K: DatabaseKey>(
    start: Seq<(Seq<char>, TableView<K::V>)>,
    log: Seq<StatementView>,
    end: Seq<(Seq<char>, TableView<K::V>)>,
)
    requires
        replays::<K>(start, log, end),
    ensures
        replays::<K>(start, spoken(log), end),
    decreases log.len(),
{
    if log.len() == 0 {
        let states = choose|states: Seq<Seq<(Seq<char>, TableView<K::V>)>>|
            #[trigger] replay_chain::<K>(states, log) && states[0] == start && states.last() == end;
        assert(states.len() == 1);
        assert(spoken(log) =~= Seq::<StatementView>::empty());
        lemma_replay_empty::<K>(start);
    } else {
        let mid = lemma_replay_last::<K>(start, log, end);
        lemma_replay_spoken::<K>(start, log.drop_last(), mid);
        if log.last() is NoStatement {
            let (l, o) = choose|l: Seq<StatementView>, o: Option<String>|
                #[trigger] run_result::<K>(
                    DatabaseView { tables: mid, log: l },
                    DatabaseView { tables: end, log: l },
                    log.last(),
                    Ok(Outcome::Output(o)),
                );
            assert(end == mid);
        } else {
            lemma_replay_push::<K>(start, spoken(log.drop_last()), mid, log.last(), end);
        }
    }
}

/// Saving and loading restore the tables: for a session whose log can rebuild its tables
/// (every session run by `QueryRun` on a fresh database, by the law above), the text
/// `SAVE_AS` writes reads back as the log's statements, and running them on a fresh
/// database can end with the session's tables. The log's statements are loggable, as
/// every statement read from a query is (`law_parsed_statements_loggable`).
pub proof fn law_saved_log_restores_tables<K: DatabaseKey>(
    log: Seq<StatementView>,
    tables: Seq<(Seq<char>, TableView<K::V>)>,
)
    requires
        replays::<K>(Seq::empty(), log, tables),
        all_loggable(log),
        log_text(log).len() < usize::MAX,
    ensures
        parse_query(log_text(log)) == Ok::<Seq<StatementView>, ParseFailure>(
            spoken(log).push(StatementView::NoStatement),
        ),
        replays::<K>(Seq::empty(), spoken(log).push(StatementView::NoStatement), tables),
{
    law_log_reads_back(log);
    lemma_replay_spoken::<K>(Seq::empty(), log, tables);
    let v = DatabaseView { tables, log: Seq::<StatementView>::empty() };
    assert(run_result::<K>(v, v, StatementView::NoStatement, Ok(Outcome::Output(None))));
    assert(runs_cleanly::<K>(tables, StatementView::NoStatement, tables));
    lemma_replay_push::<K>(Seq::empty(), spoken(log), tables, StatementView::NoStatement, tables);
}

/// Two tables hold the same: the same name, schema and key field, and the same records
/// in whatever order.
pub open spec fn table_alike<KV>(x: TableView<KV>, y: TableView<KV>) -> bool {
    &&& x.schema == y.schema
    &&& x.key_name == y.key_name
    &&& x.table_name == y.table_name
    &&& x.records.to_multiset() == y.records.to_multiset()
}

/// Two lists of tables hold the same: the same names in the same order, alike tables.
pub open spec fn tables_alike<KV>(a: Seq<(Seq<char>, TableView<KV>)>, b: Seq<(Seq<char>, TableView<KV>)>) -> bool {
    &&& a.len() == b.len()
    &&& forall|i: int| 0 <= i < a.len() ==> (#[trigger] a[i]).0 == b[i].0 && table_alike(a[i].1, b[i].1)
}

/// Table names are distinct, and so are the keys of each table's records.
pub open spec fn tables_ok<KV>(a: Seq<(Seq<char>, TableView<KV>)>) -> bool {
    &&& keys_distinct(a)
    &&& forall|i: int| 0 <= i < a.len() ==> record_keys_distinct(#[trigger] a[i].1.records)
}

/// Alike lists of tables with distinct names have the same names at the same places,
/// and alike tables under each.
proof fn lemma_names_agree<KV>(a: Seq<(Seq<char>, TableView<KV>)>, b: Seq<(Seq<char>, TableView<KV>)>, n: Seq<char>)
    requires
        tables_alike(a, b),
        keys_distinct(a),
        keys_distinct(b),
    ensures
        has_key(a, n) == has_key(b, n),
        has_key(a, n) ==> key_index(a, n) == key_index(b, n) && 0 <= key_index(a, n) < a.len()
            && a[key_index(a, n)].0 == n && table_alike(lookup(a, n).unwrap(), lookup(b, n).unwrap()),
{
    if has_key(a, n) {
        let i = key_index(a, n);
        assert(a[i].0 == b[i].0);
        assert(has_key(b, n));
        let j = key_index(b, n);
        assert(a[j].0 == b[j].0);
        if i < j {
            assert(a[i].0 != a[j].0);
        } else if j < i {
            assert(a[j].0 != a[i].0);
        }
    } else if has_key(b, n) {
        let j = key_index(b, n);
        assert(a[j].0 == b[j].0);
    }
}

/// Records with the same contents have the same keys.
proof fn lemma_record_keys_agree<KV>(x: Seq<(KV, RecordView)>, y: Seq<(KV, RecordView)>, k: KV)
    requires
        x.to_multiset() == y.to_multiset(),
    ensures
        has_record_key(x, k) == has_record_key(y, k),
{
    broadcast use vstd::seq_lib::to_multiset_contains;
    if has_record_key(x, k) {
        let i = choose|i: int| 0 <= i < x.len() && #[trigger] x[i].0 == k;
        assert(x.contains(x[i]));
        assert(x.to_multiset().count(x[i]) > 0);
        assert(y.to_multiset().count(x[i]) > 0);
        assert(y.contains(x[i]));
        let j = choose|j: int| 0 <= j < y.len() && y[j] == x[i];
        assert(y[j].0 == k);
    }
    if has_record_key(y, k) {
        let j = choose|j: int| 0 <= j < y.len() && #[trigger] y[j].0 == k;
        assert(y.contains(y[j]));
        assert(y.to_multiset().count(y[j]) > 0);
        assert(x.to_multiset().count(y[j]) > 0);
        assert(x.contains(y[j]));
        let i = choose|i: int| 0 <= i < x.len() && x[i] == y[j];
        assert(x[i].0 == k);
    }
}

/// Removing the record under a key from records with the same contents and distinct keys.
proof fn lemma_remove_agrees<KV>(x: Seq<(KV, RecordView)>, y: Seq<(KV, RecordView)>, i: int, j: int)
    requires
        x.to_multiset() == y.to_multiset(),
        record_keys_distinct(y),
        0 <= i < x.len(),
        0 <= j < y.len(),
        x[i].0 == y[j].0,
    ensures
        x.remove(i).to_multiset() == y.remove(j).to_multiset(),
{
    broadcast use vstd::seq_lib::to_multiset_contains;
    broadcast use vstd::seq_lib::to_multiset_remove;
    assert(x.contains(x[i]));
    assert(x.to_multiset().count(x[i]) > 0);
    assert(y.to_multiset().count(x[i]) > 0);
    assert(y.contains(x[i]));
    let m = choose|m: int| 0 <= m < y.len() && y[m] == x[i];
    if m < j {
        assert(y[m].0 != y[j].0);
    } else if j < m {
        assert(y[j].0 != y[m].0);
    }
    assert(y[j] == x[i]);
}

/// Removing a record keeps keys distinct.
proof fn lemma_remove_distinct<KV>(x: Seq<(KV, RecordView)>, i: int)
    requires
        record_keys_distinct(x),
        0 <= i < x.len(),
    ensures
        record_keys_distinct(x.remove(i)),
{
    let y = x.remove(i);
    assert forall|a: int, b: int| 0 <= a < b < y.len() implies #[trigger] y[a].0 != #[trigger] y[b].0 by {
        let a1 = if a < i { a } else { a + 1 };
        let b1 = if b < i { b } else { b + 1 };
        assert(y[a] == x[a1] && y[b] == x[b1]);
        assert(x[a1].0 != x[b1].0);
    }
}

/// Replacing the table under name `n` by an alike one keeps the lists alike and, when
/// the new tables have distinct keys, well made.
proof fn lemma_update_alike<KV>(
    a: Seq<(Seq<char>, TableView<KV>)>,
    b: Seq<(Seq<char>, TableView<KV>)>,
    n: Seq<char>,
    ta: TableView<KV>,
    tb: TableView<KV>,
)
    requires
        tables_alike(a, b),
        tables_ok(a),
        tables_ok(b),
        has_key(a, n),
        table_alike(ta, tb),
        record_keys_distinct(ta.records),
        record_keys_distinct(tb.records),
    ensures
        tables_alike(a.update(key_index(a, n), (n, ta)), b.update(key_index(b, n), (n, tb))),
        tables_ok(a.update(key_index(a, n), (n, ta))),
        tables_ok(b.update(key_index(b, n), (n, tb))),
{
    lemma_names_agree(a, b, n);
    let k = key_index(a, n);
    let a2 = a.update(k, (n, ta));
    let b2 = b.update(k, (n, tb));
    assert forall|i: int| 0 <= i < a2.len() implies (#[trigger] a2[i]).0 == b2[i].0 && table_alike(a2[i].1, b2[i].1) by {
        if i != k {
            assert(a2[i] == a[i] && b2[i] == b[i]);
        }
    }
    assert forall|i: int, j: int| 0 <= i < j < a2.len() implies #[trigger] a2[i].0 != #[trigger] a2[j].0 by {
        assert(a2[i].0 == a[i].0 && a2[j].0 == a[j].0);
    }
    assert forall|i: int, j: int| 0 <= i < j < b2.len() implies #[trigger] b2[i].0 != #[trigger] b2[j].0 by {
        assert(b2[i].0 == b[i].0 && b2[j].0 == b[j].0);
    }
    assert forall|i: int| 0 <= i < a2.len() implies record_keys_distinct(#[trigger] a2[i].1.records) by {
        if i != k {
            assert(a2[i] == a[i]);
        }
    }
    assert forall|i: int| 0 <= i < b2.len() implies record_keys_distinct(#[trigger] b2[i].1.records) by {
        if i != k {
            assert(b2[i] == b[i]);
        }
    }
}

/// A `CREATE` that succeeded on some tables succeeds on alike ones, with alike results.
proof fn lemma_create_agrees<K: DatabaseKey>(
    a: Seq<(Seq<char>, TableView<K::V>)>,
    b: Seq<(Seq<char>, TableView<K::V>)>,
    c: CreateStView,
    a2: Seq<(Seq<char>, TableView<K::V>)>,
    b2: Seq<(Seq<char>, TableView<K::V>)>,
    la: Seq<StatementView>,
    l: Seq<StatementView>,
    l2: Seq<StatementView>,
    r: ExecutionResult<()>,
)
    requires
        tables_alike(a, b),
        tables_ok(a),
        tables_ok(b),
        create_result::<K>(DatabaseView { tables: a, log: la }, DatabaseView { tables: a2, log: la }, c, Ok(())),
        create_result::<K>(DatabaseView { tables: b, log: l }, DatabaseView { tables: b2, log: l2 }, c, r),
    ensures
        r is Ok,
        tables_alike(a2, b2),
        tables_ok(a2),
        tables_ok(b2),
{
    lemma_names_agree(a, b, c.table_name);
    match r {
        Ok(_) => {},
        Err(ExecutionErr::TableAlreadyPresent(n)) => {},
        Err(ExecutionErr::NoPK(n)) => {},
        Err(ExecutionErr::WrongPKType { expected, got }) => {},
        Err(_) => {},
    }
    let e = (c.table_name, created_table::<K::V>(c));
    assert(a2 == a.push(e));
    assert(b2 == b.push(e));
    assert forall|i: int| 0 <= i < a2.len() implies (#[trigger] a2[i]).0 == b2[i].0 && table_alike(a2[i].1, b2[i].1) by {
        if i < a.len() {
            assert(a2[i] == a[i] && b2[i] == b[i]);
        }
    }
    assert(created_table::<K::V>(c).records =~= Seq::<(K::V, RecordView)>::empty());
    assert forall|i: int, j: int| 0 <= i < j < a2.len() implies #[trigger] a2[i].0 != #[trigger] a2[j].0 by {
        if j == a.len() {
            assert(a2[i] == a[i]);
        } else {
            assert(a2[i] == a[i] && a2[j] == a[j]);
        }
    }
    assert forall|i: int, j: int| 0 <= i < j < b2.len() implies #[trigger] b2[i].0 != #[trigger] b2[j].0 by {
        if j == b.len() {
            assert(b2[i] == b[i]);
        } else {
            assert(b2[i] == b[i] && b2[j] == b[j]);
        }
    }
    assert forall|i: int| 0 <= i < a2.len() implies record_keys_distinct(#[trigger] a2[i].1.records) by {
        if i < a.len() {
            assert(a2[i] == a[i]);
        }
    }
    assert forall|i: int| 0 <= i < b2.len() implies record_keys_distinct(#[trigger] b2[i].1.records) by {
        if i < b.len() {
            assert(b2[i] == b[i]);
        }
    }
}

/// An `INSERT` that succeeded on some tables succeeds on alike ones, with alike results.
proof fn lemma_insert_agrees<K: DatabaseKey>(
    a: Seq<(Seq<char>, TableView<K::V>)>,
    b: Seq<(Seq<char>, TableView<K::V>)>,
    st: InsertStView,
    a2: Seq<(Seq<char>, TableView<K::V>)>,
    b2: Seq<(Seq<char>, TableView<K::V>)>,
    la: Seq<StatementView>,
    l: Seq<StatementView>,
    l2: Seq<StatementView>,
    r: ExecutionResult<()>,
)
    requires
        tables_alike(a, b),
        tables_ok(a),
        tables_ok(b),
        insert_db_result::<K>(DatabaseView { tables: a, log: la }, DatabaseView { tables: a2, log: la }, st, Ok(())),
        insert_db_result::<K>(DatabaseView { tables: b, log: l }, DatabaseView { tables: b2, log: l2 }, st, r),
    ensures
        r is Ok,
        tables_alike(a2, b2),
        tables_ok(a2),
        tables_ok(b2),
{
    broadcast use vstd::seq_lib::to_multiset_insert;
    let n = st.table_name;
    lemma_names_agree(a, b, n);
    let k = key_index(a, n);
    let ta = lookup(a, n).unwrap();
    let tb = lookup(b, n).unwrap();
    assert(ta == a[k].1 && tb == b[k].1);
    let nta = choose|nt: TableView<K::V>|
        insert_result::<K>(ta, nt, st, Ok(())) && a2 == #[trigger] a.update(key_index(a, n), (n, nt));
    assert(!(r matches Err(ExecutionErr::NoTable(_))));
    let ntb = choose|nt: TableView<K::V>|
        insert_result::<K>(tb, nt, st, r) && b2 == #[trigger] b.update(key_index(b, n), (n, nt));
    let pk = ta.key_name;
    let key = K::key_of_value(lookup(st.fields, pk).unwrap()).unwrap();
    lemma_record_keys_agree(ta.records, tb.records, key);
    assert(insert_header_ok::<K>(ta, st));
    assert(fields_fit(ta.schema, pk, st.fields, st.fields.len() as int));
    match r {
        Err(ExecutionErr::NoDef(f)) => {
            let i = choose|i: int|
                0 <= i < st.fields.len() && fields_fit(tb.schema, pk, st.fields, i) && !field_fits(tb.schema, pk, st.fields[i])
                    && !has_key(tb.schema, st.fields[i].0) && f@ == st.fields[i].0 && ntb == tb;
            assert(field_fits(ta.schema, pk, st.fields[i]));
        },
        Err(ExecutionErr::BadType { field, got, expected }) => {
            let i = choose|i: int|
                0 <= i < st.fields.len() && fields_fit(tb.schema, pk, st.fields, i) && !field_fits(tb.schema, pk, st.fields[i])
                    && lookup(tb.schema, st.fields[i].0) == Some(expected) && got == value_type(st.fields[i].1)
                    && field@ == st.fields[i].0 && ntb == tb;
            assert(field_fits(ta.schema, pk, st.fields[i]));
        },
        _ => {},
    }
    assert(r is Ok);
    let x = (key, without_field(st.fields, pk));
    let ia = choose|i: int| 0 <= i <= ta.records.len() && nta.records == ta.records.insert(i, x);
    let ib = choose|i: int| 0 <= i <= tb.records.len() && ntb.records == tb.records.insert(i, x);
    assert(nta.records.to_multiset() == ntb.records.to_multiset());
    assert(record_keys_distinct(ta.records) && record_keys_distinct(tb.records));
    lemma_insert_distinct(ta.records, ia, x);
    lemma_insert_distinct(tb.records, ib, x);
    lemma_update_alike(a, b, n, nta, ntb);
}

/// A `DELETE` that succeeded on some tables succeeds on alike ones, with alike results.
proof fn lemma_delete_agrees<K: DatabaseKey>(
    a: Seq<(Seq<char>, TableView<K::V>)>,
    b: Seq<(Seq<char>, TableView<K::V>)>,
    st: DeleteStView,
    a2: Seq<(Seq<char>, TableView<K::V>)>,
    b2: Seq<(Seq<char>, TableView<K::V>)>,
    la: Seq<StatementView>,
    l: Seq<StatementView>,
    l2: Seq<StatementView>,
    r: ExecutionResult<()>,
)
    requires
        tables_alike(a, b),
        tables_ok(a),
        tables_ok(b),
        delete_db_result::<K>(DatabaseView { tables: a, log: la }, DatabaseView { tables: a2, log: la }, st, Ok(())),
        delete_db_result::<K>(DatabaseView { tables: b, log: l }, DatabaseView { tables: b2, log: l2 }, st, r),
    ensures
        r is Ok,
        tables_alike(a2, b2),
        tables_ok(a2),
        tables_ok(b2),
{
    broadcast use vstd::seq_lib::to_multiset_remove;
    let n = st.table_name;
    lemma_names_agree(a, b, n);
    let k = key_index(a, n);
    let ta = lookup(a, n).unwrap();
    let tb = lookup(b, n).unwrap();
    assert(ta == a[k].1 && tb == b[k].1);
    let nta = choose|nt: TableView<K::V>|
        delete_result::<K>(ta, nt, st, Ok(())) && a2 == #[trigger] a.update(key_index(a, n), (n, nt));
    assert(!(r matches Err(ExecutionErr::NoTable(_))));
    let ntb = choose|nt: TableView<K::V>|
        delete_result::<K>(tb, nt, st, r) && b2 == #[trigger] b.update(key_index(b, n), (n, nt));
    let key = K::key_of_text(st.key).unwrap();
    let ia = choose|i: int|
        0 <= i < ta.records.len() && #[trigger] ta.records[i].0 == key && nta.records == ta.records.remove(i);
    assert(has_record_key(ta.records, key));
    lemma_record_keys_agree(ta.records, tb.records, key);
    assert(r is Ok);
    let ib = choose|i: int|
        0 <= i < tb.records.len() && #[trigger] tb.records[i].0 == key && ntb.records == tb.records.remove(i);
    assert(record_keys_distinct(ta.records) && record_keys_distinct(tb.records));
    lemma_remove_agrees(ta.records, tb.records, ia, ib);
    lemma_remove_distinct(ta.records, ia);
    lemma_remove_distinct(tb.records, ib);
    lemma_update_alike(a, b, n, nta, ntb);
}

/// A statement that ran cleanly on some tables, run on alike tables: it is not refused,
/// and leaves tables alike those of the clean run.
pub proof fn lemma_step_agrees<K: DatabaseKey>(
    a: Seq<(Seq<char>, TableView<K::V>)>,
    b: Seq<(Seq<char>, TableView<K::V>)>,
    st: StatementView,
    a2: Seq<(Seq<char>, TableView<K::V>)>,
    b2: Seq<(Seq<char>, TableView<K::V>)>,
    l: Seq<StatementView>,
    l2: Seq<StatementView>,
    r: DatabaseResult<Outcome>,
)
    requires
        tables_alike(a, b),
        tables_ok(a),
        tables_ok(b),
        runs_cleanly::<K>(a, st, a2),
        run_result::<K>(DatabaseView { tables: b, log: l }, DatabaseView { tables: b2, log: l2 }, st, r),
    ensures
        r is Ok,
        tables_alike(a2, b2),
        tables_ok(a2),
        tables_ok(b2),
{
    match st {
        StatementView::Read(_) => {},
        StatementView::Save(_) => {},
        _ => {
            let (la, o) = choose|la: Seq<StatementView>, o: Option<String>|
                #[trigger] run_result::<K>(
                    DatabaseView { tables: a, log: la },
                    DatabaseView { tables: a2, log: la },
                    st,
                    Ok(Outcome::Output(o)),
                );
            match st {
                StatementView::Create(c) => {
                    let e: ExecutionResult<()> = match r {
                        Ok(_) => Ok(()),
                        Err(DatabaseErr::ExecutionError { error, statement }) => Err(error),
                        Err(_) => Ok(()),
                    };
                    lemma_create_agrees::<K>(a, b, c, a2, b2, la, l, l2, e);
                },
                StatementView::Insert(i) => {
                    let e: ExecutionResult<()> = match r {
                        Ok(_) => Ok(()),
                        Err(DatabaseErr::ExecutionError { error, statement }) => Err(error),
                        Err(_) => Ok(()),
                    };
                    lemma_insert_agrees::<K>(a, b, i, a2, b2, la, l, l2, e);
                },
                StatementView::Delete(d) => {
                    let e: ExecutionResult<()> = match r {
                        Ok(_) => Ok(()),
                        Err(DatabaseErr::ExecutionError { error, statement }) => Err(error),
                        Err(_) => Ok(()),
                    };
                    lemma_delete_agrees::<K>(a, b, d, a2, b2, la, l, l2, e);
                },
                StatementView::Select(x) => {
                    let n = x.table_name;
                    lemma_names_agree(a, b, n);
                    let (h, rows) = choose|h: Seq<Seq<char>>, rows: Seq<Seq<Seq<char>>>|
                        #[trigger] select_result::<K>(DatabaseView { tables: a, log: la }, x, Ok((h, rows)));
                    let ta = lookup(a, n).unwrap();
                    let tb = lookup(b, n).unwrap();
                    assert(select_columns(ta, x) == select_columns(tb, x));
                    let cols = select_columns(ta, x);
                    match r {
                        Err(DatabaseErr::ExecutionError { error: ExecutionErr::NoDef(c), statement }) => {
                            if exists|j: int|
                                0 <= j < cols.len() && columns_known(tb, cols, j) && !has_key(tb.schema, cols[j])
                                    && c@ == cols[j] {
                                let j = choose|j: int|
                                    0 <= j < cols.len() && columns_known(tb, cols, j) && !has_key(tb.schema, cols[j])
                                        && c@ == cols[j];
                                assert(has_key(ta.schema, cols[j]));
                            }
                        },
                        _ => {},
                    }
                },
                _ => {},
            }
        },
    }
}

/// A replay chain that starts from no tables passes only through well-made tables.
proof fn lemma_chain_ok<K: DatabaseKey>(states: Seq<Seq<(Seq<char>, TableView<K::V>)>>, log: Seq<StatementView>, k: int)
    requires
        replay_chain::<K>(states, log),
        states[0] == Seq::<(Seq<char>, TableView<K::V>)>::empty(),
        0 <= k <= log.len(),
    ensures
        tables_ok(states[k]),
    decreases k,
{
    if k == 0 {
        assert(tables_ok(Seq::<(Seq<char>, TableView<K::V>)>::empty()));
    } else {
        lemma_chain_ok::<K>(states, log, k - 1);
        let i = k - 1;
        assert(runs_cleanly::<K>(states[i], log[i], states[i + 1]));
        assert(tables_alike(states[k - 1], states[k - 1]));
        let l = Seq::<StatementView>::empty();
        if !(log[k - 1] is Read) && !(log[k - 1] is Save) {
            let (la, o) = choose|la: Seq<StatementView>, o: Option<String>|
                #[trigger] run_result::<K>(
                    DatabaseView { tables: states[k - 1], log: la },
                    DatabaseView { tables: states[k], log: la },
                    log[k - 1],
                    Ok(Outcome::Output(o)),
                );
            lemma_step_agrees::<K>(states[k - 1], states[k - 1], log[k - 1], states[k], states[k], la, la, Ok(Outcome::Output(o)));
        }
    }
}

/// Loading goes as the saved session went: run on tables alike those the session had
/// before its `k`-th spoken statement, that statement is not refused and leaves tables
/// alike those the session had after it. From a fresh database (no tables) and step by
/// step, every run of the loaded statements succeeds and ends with tables alike the
/// session's: the same tables, each with the same records.
pub proof fn law_load_follows_session<K: DatabaseKey>(
    states: Seq<Seq<(Seq<char>, TableView<K::V>)>>,
    stmts: Seq<StatementView>,
    k: int,
    b: Seq<(Seq<char>, TableView<K::V>)>,
    b2: Seq<(Seq<char>, TableView<K::V>)>,
    l: Seq<StatementView>,
    l2: Seq<StatementView>,
    r: DatabaseResult<Outcome>,
)
    requires
        replay_chain::<K>(states, stmts),
        states[0] == Seq::<(Seq<char>, TableView<K::V>)>::empty(),
        0 <= k < stmts.len(),
        tables_alike(states[k], b),
        tables_ok(b),
        run_result::<K>(DatabaseView { tables: b, log: l }, DatabaseView { tables: b2, log: l2 }, stmts[k], r),
    ensures
        r is Ok,
        tables_alike(states[k + 1], b2),
        tables_ok(b2),
{
    lemma_chain_ok::<K>(states, stmts, k);
    assert(runs_cleanly::<K>(states[k], stmts[k], states[k + 1]));
    lemma_step_agrees::<K>(states[k], b, stmts[k], states[k + 1], b2, l, l2, r);
}

/// The first `n` steps of a run from no tables, taken one by one along a replay chain,
/// stay alike the chain.
proof fn lemma_load_prefix<K: DatabaseKey>(
    states: Seq<Seq<(Seq<char>, TableView<K::V>)>>,
    stmts: Seq<StatementView>,
    bs: Seq<Seq<(Seq<char>, TableView<K::V>)>>,
    ls: Seq<Seq<StatementView>>,
    ls2: Seq<Seq<StatementView>>,
    rs: Seq<DatabaseResult<Outcome>>,
    n: int,
)
    requires
        replay_chain::<K>(states, stmts),
        states[0] == Seq::<(Seq<char>, TableView<K::V>)>::empty(),
        0 <= n <= rs.len() <= stmts.len(),
        bs.len() == rs.len() + 1,
        ls.len() == rs.len(),
        ls2.len() == rs.len(),
        bs[0] == Seq::<(Seq<char>, TableView<K::V>)>::empty(),
        forall|i: int|
            0 <= i < rs.len() ==> #[trigger] run_result::<K>(
                DatabaseView { tables: bs[i], log: ls[i] },
                DatabaseView { tables: bs[i + 1], log: ls2[i] },
                stmts[i],
                rs[i],
            ),
    ensures
        tables_alike(states[n], bs[n]),
        tables_ok(bs[n]),
        forall|i: int| 0 <= i < n ==> (#[trigger] rs[i]) is Ok,
    decreases n,
{
    if n == 0 {
        assert(tables_ok(bs[0]));
    } else {
        let i = n - 1;
        lemma_load_prefix::<K>(states, stmts, bs, ls, ls2, rs, i);
        assert(run_result::<K>(
            DatabaseView { tables: bs[i], log: ls[i] },
            DatabaseView { tables: bs[i + 1], log: ls2[i] },
            stmts[i],
            rs[i],
        ));
        law_load_follows_session::<K>(states, stmts, i, bs[i], bs[i + 1], ls[i], ls2[i], rs[i]);
    }
}

/// Saving and loading restore the tables: after the statements that `SAVE_AS` wrote are
/// read back (`law_saved_log_restores_tables`), any run of them on a fresh database, one
/// statement after another, has no statement refused, and once all have run the
/// database has the saved session's tables, each with the same records.
pub proof fn law_load_restores_tables<K: DatabaseKey>(
    stmts: Seq<StatementView>,
    tables: Seq<(Seq<char>, TableView<K::V>)>,
    bs: Seq<Seq<(Seq<char>, TableView<K::V>)>>,
    ls: Seq<Seq<StatementView>>,
    ls2: Seq<Seq<StatementView>>,
    rs: Seq<DatabaseResult<Outcome>>,
)
    requires
        replays::<K>(Seq::empty(), stmts, tables),
        rs.len() <= stmts.len(),
        bs.len() == rs.len() + 1,
        ls.len() == rs.len(),
        ls2.len() == rs.len(),
        bs[0] == Seq::<(Seq<char>, TableView<K::V>)>::empty(),
        forall|i: int|
            0 <= i < rs.len() ==> #[trigger] run_result::<K>(
                DatabaseView { tables: bs[i], log: ls[i] },
                DatabaseView { tables: bs[i + 1], log: ls2[i] },
                stmts[i],
                rs[i],
            ),
    ensures
        forall|i: int| 0 <= i < rs.len() ==> (#[trigger] rs[i]) is Ok,
        rs.len() == stmts.len() ==> tables_alike(tables, bs[rs.len() as int]),
{
    let states = choose|states: Seq<Seq<(Seq<char>, TableView<K::V>)>>|
        #[trigger] replay_chain::<K>(states, stmts) && states[0] == Seq::<(Seq<char>, TableView<K::V>)>::empty()
            && states.last() == tables;
    lemma_load_prefix::<K>(states, stmts, bs, ls, ls2, rs, rs.len() as int);
}

} // verus!
