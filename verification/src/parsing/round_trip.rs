//! The text of a statement reads back as the same statement.
//!
//! A text is described as a sequence of pieces (words, single separators, `:` and `=`);
//! the tokens of such a text are the pieces other than separators, in order.
use vstd::prelude::*;
use crate::errors::database_result::StatementErr;
use crate::parsing::grammar::{ParseFailure, same_ci, matches_ci, kw_at, is_word_at, kind_at, ident_at, is_ident, is_ident_char, text_at, tok_text, from_kw_at, parse_statement, parse_all, parse_query, parse_delete, parse_select, parse_columns, parse_mods, parse_defs, parse_create, type_at, value_of, is_int_literal, parse_assigns, parse_insert};
use crate::errors::parsing_err::ParsingErrView;
use crate::model::decimal::{DecimalView, decimal_query_text, decimal_text, is_float_literal, literal_decimal, point_at, unsigned_part, strip_leading_zeros, strip_trailing_zeros};
use crate::model::table::{ValueType, ValueView, type_query_name, value_query_text, value_text};
use crate::model::field_map::has_key;
use crate::parsing::lexer::{Token, TokenKind, is_sep, is_word_char, word_end, lex_from, lex};
use crate::parsing::statements::{StatementView, DeleteStView, SelectStView, CreateStView, InsertStView, statement_text, select_text, name_order, schema_text, assignments_text};
use crate::sorting::{sort_by, insert_sorted};
use crate::text::{text_lt, join};
use crate::text::{all_digits, digits_val, digit_char, digit_of, is_digit, nat_text, int_text, parse_i64_text, signed_text_value};

verus! {

/// A piece of a text: a word, one separating character, `:` or `=`.
pub enum Piece {
    Word(Seq<char>),
    Sep(char),
    Colon,
    Equals,
}

pub open spec fn piece_text(p: Piece) -> Seq<char> {
    match p {
        Piece::Word(w) => w,
        Piece::Sep(c) => seq![c],
        Piece::Colon => seq![':'],
        Piece::Equals => seq!['='],
    }
}

/// The text the pieces make up.
pub open spec fn pieces_text(ps: Seq<Piece>) -> Seq<char>
    decreases ps.len(),
{
    if ps.len() == 0 {
        Seq::empty()
    } else {
        pieces_text(ps.drop_last()) + piece_text(ps.last())
    }
}

/// What a piece reads as: nothing for a separator, else the token's kind and text.
pub open spec fn piece_items(p: Piece) -> Seq<(TokenKind, Seq<char>)> {
    match p {
        Piece::Word(w) => seq![(TokenKind::Word, w)],
        Piece::Sep(_) => Seq::empty(),
        Piece::Colon => seq![(TokenKind::Colon, seq![':'])],
        Piece::Equals => seq![(TokenKind::Equals, seq!['='])],
    }
}

/// The kinds and texts of the tokens of the pieces, in order.
pub open spec fn items(ps: Seq<Piece>) -> Seq<(TokenKind, Seq<char>)>
    decreases ps.len(),
{
    if ps.len() == 0 {
        Seq::empty()
    } else {
        items(ps.drop_last()) + piece_items(ps.last())
    }
}

/// The token a piece starting at `at` gives.
pub open spec fn piece_tokens(p: Piece, at: int) -> Seq<Token> {
    match p {
        Piece::Word(w) => seq![Token { kind: TokenKind::Word, start: at as usize, end: (at + w.len()) as usize }],
        Piece::Sep(_) => Seq::empty(),
        Piece::Colon => seq![Token { kind: TokenKind::Colon, start: at as usize, end: (at + 1) as usize }],
        Piece::Equals => seq![Token { kind: TokenKind::Equals, start: at as usize, end: (at + 1) as usize }],
    }
}

/// The tokens of the pieces, the first starting at `off`.
pub open spec fn pieces_tokens(ps: Seq<Piece>, off: int) -> Seq<Token>
    decreases ps.len(),
{
    if ps.len() == 0 {
        Seq::empty()
    } else {
        pieces_tokens(ps.drop_last(), off) + piece_tokens(ps.last(), off + pieces_text(ps.drop_last()).len())
    }
}

/// A word is made of word characters; a separator is a separating character.
pub open spec fn piece_ok(p: Piece) -> bool {
    match p {
        Piece::Word(w) => w.len() > 0 && forall|i: int| 0 <= i < w.len() ==> is_word_char(#[trigger] w[i]),
        Piece::Sep(c) => is_sep(c),
        _ => true,
    }
}

/// Every piece is well made, and no two words touch.
pub open spec fn pieces_ok(ps: Seq<Piece>) -> bool {
    &&& forall|i: int| 0 <= i < ps.len() ==> piece_ok(#[trigger] ps[i])
    &&& forall|i: int| 0 <= i < ps.len() - 1 ==> !(#[trigger] ps[i] is Word && ps[i + 1] is Word)
}

/// The tokens `t` read from text `s` are, in order, those of `its`.
pub open spec fn tokens_read(s: Seq<char>, t: Seq<Token>, its: Seq<(TokenKind, Seq<char>)>) -> bool {
    &&& t.len() == its.len()
    &&& forall|p: int| 0 <= p < t.len() ==> (#[trigger] t[p]).kind == its[p].0 && t[p].start <= t[p].end <= s.len()
        && s.subrange(t[p].start as int, t[p].end as int) == its[p].1
}

pub proof fn lemma_pieces_text_concat(a: Seq<Piece>, b: Seq<Piece>)
    ensures
        pieces_text(a + b) == pieces_text(a) + pieces_text(b),
    decreases b.len(),
{
    if b.len() == 0 {
        assert(a + b =~= a);
    } else {
        lemma_pieces_text_concat(a, b.drop_last());
        assert((a + b).drop_last() =~= a + b.drop_last());
    }
}

pub proof fn lemma_items_concat(a: Seq<Piece>, b: Seq<Piece>)
    ensures
        items(a + b) == items(a) + items(b),
    decreases b.len(),
{
    if b.len() == 0 {
        assert(a + b =~= a);
    } else {
        lemma_items_concat(a, b.drop_last());
        assert((a + b).drop_last() =~= a + b.drop_last());
    }
}

pub proof fn lemma_pieces_tokens_concat(a: Seq<Piece>, b: Seq<Piece>, off: int)
    ensures
        pieces_tokens(a + b, off) == pieces_tokens(a, off) + pieces_tokens(b, off + pieces_text(a).len()),
    decreases b.len(),
{
    if b.len() == 0 {
        assert(a + b =~= a);
    } else {
        lemma_pieces_tokens_concat(a, b.drop_last(), off);
        assert((a + b).drop_last() =~= a + b.drop_last());
        lemma_pieces_text_concat(a, b.drop_last());
    }
}

/// The tokens of pieces lying at `off` in a text cover the texts their items give.
pub proof fn lemma_tokens_cover(ps: Seq<Piece>, pre: Seq<char>, post: Seq<char>)
    ensures
        pieces_tokens(ps, pre.len() as int).len() == items(ps).len(),
        pre.len() + pieces_text(ps).len() + post.len() < usize::MAX ==> tokens_read(
            pre + pieces_text(ps) + post,
            pieces_tokens(ps, pre.len() as int),
            items(ps),
        ),
    decreases ps.len(),
{
    if ps.len() > 0 {
        let init = ps.drop_last();
        let last = ps.last();
        let post2 = piece_text(last) + post;
        lemma_tokens_cover(init, pre, post2);
        let s = pre + pieces_text(ps) + post;
        assert(pre + pieces_text(init) + post2 =~= s);
        if pre.len() + pieces_text(ps).len() + post.len() < usize::MAX {
            let t = pieces_tokens(ps, pre.len() as int);
            let its = items(ps);
            let t0 = pieces_tokens(init, pre.len() as int);
            let at = (pre.len() + pieces_text(init).len()) as int;
            assert forall|p: int| 0 <= p < t.len() implies (#[trigger] t[p]).kind == its[p].0 && t[p].start
                <= t[p].end <= s.len() && s.subrange(t[p].start as int, t[p].end as int) == its[p].1 by {
                if p < t0.len() {
                    assert(t[p] == t0[p]);
                    assert(its[p] == items(init)[p]);
                } else {
                    assert(s.subrange(at, at + piece_text(last).len() as int) =~= piece_text(last));
                }
            }
        }
    }
}

/// Where the word at `i` ends, when `n` word characters follow and then no word character.
proof fn lemma_word_end_at(s: Seq<char>, i: int, n: int)
    requires
        0 <= i,
        0 <= n,
        i + n <= s.len(),
        forall|k: int| i <= k < i + n ==> is_word_char(#[trigger] s[k]),
        i + n == s.len() || !is_word_char(s[i + n]),
    ensures
        word_end(s, i) == i + n,
    decreases n,
{
    if n > 0 {
        lemma_word_end_at(s, i + 1, n - 1);
    }
}

/// Reading a text made of well-made pieces gives the pieces' tokens.
pub proof fn lemma_lex_pieces(ps: Seq<Piece>)
    requires
        pieces_ok(ps),
        pieces_text(ps).len() < usize::MAX,
    ensures
        lex(pieces_text(ps)) == pieces_tokens(ps, 0),
{
    lemma_lex_pieces_from(ps, 0);
    assert(ps.skip(0) =~= ps);
    assert(ps.take(0) =~= Seq::<Piece>::empty());
}

#[verifier::spinoff_prover]
#[verifier::rlimit(40)]
proof fn lemma_lex_pieces_from(ps: Seq<Piece>, k: int)
    requires
        pieces_ok(ps),
        pieces_text(ps).len() < usize::MAX,
        0 <= k <= ps.len(),
    ensures
        lex_from(pieces_text(ps), pieces_text(ps.take(k)).len() as int) == pieces_tokens(
            ps.skip(k),
            pieces_text(ps.take(k)).len() as int,
        ),
    decreases ps.len() - k,
{
    let s = pieces_text(ps);
    let a = ps.take(k);
    let b = ps.skip(k);
    assert(a + b =~= ps);
    lemma_pieces_text_concat(a, b);
    let i = pieces_text(a).len() as int;
    if k == ps.len() {
        assert(b.len() == 0);
        assert(i == s.len());
    } else {
        lemma_lex_pieces_from(ps, k + 1);
        let p = ps[k];
        let rest = b.drop_first();
        assert(b =~= seq![p] + rest);
        lemma_pieces_text_concat(seq![p], rest);
        lemma_pieces_tokens_concat(seq![p], rest, i);
        assert(seq![p].drop_last() =~= Seq::<Piece>::empty());
        assert(seq![p].last() == p);
        assert(pieces_text(Seq::<Piece>::empty()).len() == 0);
        assert(pieces_tokens(Seq::<Piece>::empty(), i) =~= Seq::<Token>::empty());
        assert(pieces_text(seq![p]) =~= piece_text(p));
        assert(pieces_tokens(seq![p], i) =~= piece_tokens(p, i));
        assert(ps.take(k + 1) =~= a.push(p));
        assert(a.push(p).drop_last() =~= a);
        assert(a.push(p).last() == p);
        assert(ps.skip(k + 1) =~= rest);
        assert(pieces_text(ps.take(k + 1)) =~= pieces_text(a) + piece_text(p));
        assert(s =~= pieces_text(a) + piece_text(p) + pieces_text(rest));
        assert(piece_ok(ps[k]));
        match p {
            Piece::Word(w) => {
                assert(forall|j: int| 0 <= j < w.len() ==> s[i + j] == w[j]);
                assert forall|j: int| i <= j < i + w.len() implies is_word_char(#[trigger] s[j]) by {
                    assert(s[j] == w[j - i]);
                }
                if i + w.len() < s.len() {
                    assert(k + 1 < ps.len());
                    let q = ps[k + 1];
                    assert(!(ps[k] is Word && ps[k + 1] is Word));
                    assert(piece_ok(ps[k + 1]));
                    assert(rest[0] == q);
                    let r2 = rest.drop_first();
                    assert(rest =~= seq![q] + r2);
                    lemma_pieces_text_concat(seq![q], r2);
                    assert(seq![q].drop_last() =~= Seq::<Piece>::empty());
                    assert(pieces_text(seq![q]) =~= piece_text(q));
                    assert(s[i + w.len()] == piece_text(q)[0]);
                }
                lemma_word_end_at(s, i, w.len() as int);
                assert(is_word_char(s[i]));
            },
            Piece::Sep(c) => {
                assert(s[i] == c);
            },
            Piece::Colon => {
                assert(s[i] == ':');
            },
            Piece::Equals => {
                assert(s[i] == '=');
            },
        }
    }
}

/// Adding a piece adds its text and its token.
pub proof fn lemma_push_piece(ps: Seq<Piece>, p: Piece)
    ensures
        pieces_text(ps.push(p)) == pieces_text(ps) + piece_text(p),
        items(ps.push(p)) == items(ps) + piece_items(p),
{
    assert(ps.push(p).drop_last() =~= ps);
}

/// Reading the text of well-made pieces gives tokens that cover the pieces' items.
pub proof fn lemma_read_pieces(ps: Seq<Piece>)
    requires
        pieces_ok(ps),
        pieces_text(ps).len() < usize::MAX,
    ensures
        tokens_read(pieces_text(ps), lex(pieces_text(ps)), items(ps)),
{
    lemma_lex_pieces(ps);
    let e = Seq::<char>::empty();
    lemma_tokens_cover(ps, e, e);
    assert(e + pieces_text(ps) + e =~= pieces_text(ps));
}

/// A keyword matches itself.
pub proof fn lemma_kw_self(k: Seq<char>)
    ensures
        matches_ci(k, k),
{
}

/// A word differing from a keyword at position `i` (in any case) is not that keyword.
pub proof fn lemma_kw_differs(w: Seq<char>, k: Seq<char>, i: int)
    requires
        w.len() != k.len() || (0 <= i < w.len() && !same_ci(w[i], k[i])),
    ensures
        !matches_ci(w, k),
{
}

/// Reading tokens: the token at `p` is a word exactly when its item is.
pub proof fn lemma_token_at(s: Seq<char>, t: Seq<Token>, its: Seq<(TokenKind, Seq<char>)>, p: int)
    requires
        tokens_read(s, t, its),
        0 <= p < t.len(),
    ensures
        t[p].kind == its[p].0,
        tok_text(s, t[p]) == its[p].1,
        text_at(s, t, p) == its[p].1,
{
}

/// The items `xs` stand in `its` from position `p` on.
pub open spec fn items_at(its: Seq<(TokenKind, Seq<char>)>, p: int, xs: Seq<(TokenKind, Seq<char>)>) -> bool {
    &&& 0 <= p
    &&& p + xs.len() <= its.len()
    &&& forall|i: int| 0 <= i < xs.len() ==> its[p + i] == #[trigger] xs[i]
}

/// What may come after a statement's tokens: nothing, or a word other than `LIMIT` and
/// `ORDER_BY` that is not followed by `:`.
pub open spec fn stops_statement(its: Seq<(TokenKind, Seq<char>)>, k: int) -> bool {
    k >= its.len() || (its[k].0 == TokenKind::Word && !matches_ci(its[k].1, "LIMIT"@) && !matches_ci(
        its[k].1,
        "ORDER_BY"@,
    ) && (k + 1 >= its.len() || its[k + 1].0 != TokenKind::Colon))
}

/// The token at `p + i` reads as the `i`-th of the items standing at `p`.
pub proof fn lemma_token_of(
    s: Seq<char>,
    t: Seq<Token>,
    its: Seq<(TokenKind, Seq<char>)>,
    p: int,
    xs: Seq<(TokenKind, Seq<char>)>,
    i: int,
)
    requires
        tokens_read(s, t, its),
        items_at(its, p, xs),
        0 <= i < xs.len(),
    ensures
        t[p + i].kind == xs[i].0,
        tok_text(s, t[p + i]) == xs[i].1,
        text_at(s, t, p + i) == xs[i].1,
        is_word_at(t, p + i) == (xs[i].0 == TokenKind::Word),
{
    assert(its[p + i] == xs[i]);
    lemma_token_at(s, t, its, p + i);
}

/// A name is a word of word characters.
pub proof fn lemma_ident_is_word(w: Seq<char>)
    requires
        is_ident(w),
    ensures
        w.len() > 0,
        forall|i: int| 0 <= i < w.len() ==> is_word_char(#[trigger] w[i]),
{
    assert forall|i: int| 0 <= i < w.len() implies is_word_char(#[trigger] w[i]) by {
        assert(is_ident_char(w[i]));
    }
}

/// A word that can stand alone: not empty, word characters only.
pub open spec fn is_plain_word(w: Seq<char>) -> bool {
    w.len() > 0 && forall|i: int| 0 <= i < w.len() ==> is_word_char(#[trigger] w[i])
}

/// The pieces make up `text`, read as `its`, are well made, and start and end with a word.
pub open spec fn layout_ok(ps: Seq<Piece>, text: Seq<char>, its: Seq<(TokenKind, Seq<char>)>) -> bool {
    &&& pieces_text(ps) == text
    &&& items(ps) == its
    &&& pieces_ok(ps)
    &&& ps.len() > 0
    &&& ps[0] is Word
    &&& ps.last() is Word
}

/// The pieces of a `DELETE`.
pub open spec fn delete_pieces(d: DeleteStView) -> Seq<Piece> {
    seq![Piece::Word("DELETE"@), Piece::Sep(' '), Piece::Word(d.key), Piece::Sep(' '), Piece::Word("FROM"@),
        Piece::Sep(' '), Piece::Word(d.table_name)]
}

/// The items of a `DELETE`'s tokens.
pub open spec fn delete_items(d: DeleteStView) -> Seq<(TokenKind, Seq<char>)> {
    seq![(TokenKind::Word, "DELETE"@), (TokenKind::Word, d.key), (TokenKind::Word, "FROM"@), (TokenKind::Word, d.table_name)]
}

/// Pieces given one at a time: their text and items.
proof fn lemma_seven_pieces(ps: Seq<Piece>)
    requires
        ps.len() == 7,
    ensures
        pieces_text(ps) == piece_text(ps[0]) + piece_text(ps[1]) + piece_text(ps[2]) + piece_text(ps[3])
            + piece_text(ps[4]) + piece_text(ps[5]) + piece_text(ps[6]),
        items(ps) == piece_items(ps[0]) + piece_items(ps[1]) + piece_items(ps[2]) + piece_items(ps[3])
            + piece_items(ps[4]) + piece_items(ps[5]) + piece_items(ps[6]),
{
    let e = Seq::<Piece>::empty();
    lemma_push_piece(e, ps[0]);
    lemma_push_piece(ps.take(1), ps[1]);
    lemma_push_piece(ps.take(2), ps[2]);
    lemma_push_piece(ps.take(3), ps[3]);
    lemma_push_piece(ps.take(4), ps[4]);
    lemma_push_piece(ps.take(5), ps[5]);
    lemma_push_piece(ps.take(6), ps[6]);
    assert(e.push(ps[0]) =~= ps.take(1));
    assert(ps.take(1).push(ps[1]) =~= ps.take(2));
    assert(ps.take(2).push(ps[2]) =~= ps.take(3));
    assert(ps.take(3).push(ps[3]) =~= ps.take(4));
    assert(ps.take(4).push(ps[4]) =~= ps.take(5));
    assert(ps.take(5).push(ps[5]) =~= ps.take(6));
    assert(ps.take(6).push(ps[6]) =~= ps);
    assert(pieces_text(e) =~= Seq::<char>::empty());
    assert(items(e) =~= Seq::<(TokenKind, Seq<char>)>::empty());
    assert(pieces_text(ps) =~= piece_text(ps[0]) + piece_text(ps[1]) + piece_text(ps[2]) + piece_text(ps[3])
        + piece_text(ps[4]) + piece_text(ps[5]) + piece_text(ps[6]));
    assert(items(ps) =~= piece_items(ps[0]) + piece_items(ps[1]) + piece_items(ps[2]) + piece_items(ps[3])
        + piece_items(ps[4]) + piece_items(ps[5]) + piece_items(ps[6]));
}

/// The text of a `DELETE` is that of its pieces, and its tokens are its items.
pub proof fn lemma_delete_layout(d: DeleteStView)
    requires
        is_plain_word(d.key),
        is_ident(d.table_name),
    ensures
        layout_ok(delete_pieces(d), statement_text(StatementView::Delete(d)), delete_items(d)),
        statement_text(StatementView::Delete(d)).len() < usize::MAX ==> tokens_read(statement_text(StatementView::Delete(d)), lex(statement_text(StatementView::Delete(d))), delete_items(d)),
{
    reveal_strlit("DELETE");
    reveal_strlit("FROM");
    reveal_strlit("DELETE ");
    reveal_strlit(" FROM ");
    let ps = delete_pieces(d);
    lemma_seven_pieces(ps);
    assert(pieces_text(ps) =~= statement_text(StatementView::Delete(d)));
    assert(items(ps) =~= delete_items(d));
    lemma_ident_is_word(d.table_name);
    assert(pieces_ok(ps)) by {
        assert(piece_ok(ps[0]));
        assert(piece_ok(ps[2]));
        assert(piece_ok(ps[4]));
        assert(piece_ok(ps[6]));
    }
    assert(ps == delete_pieces(d));
    if statement_text(StatementView::Delete(d)).len() < usize::MAX {
        lemma_read_pieces(ps);
    }
}

/// Tokens read as a `DELETE` parse as that statement.
pub proof fn lemma_delete_parse_at(s: Seq<char>, t: Seq<Token>, its: Seq<(TokenKind, Seq<char>)>, p: int, d: DeleteStView)
    requires
        tokens_read(s, t, its),
        items_at(its, p, delete_items(d)),
        is_ident(d.table_name),
    ensures
        parse_statement(s, t, p) == Ok::<(Result<StatementView, ParseFailure>, int), nat>(
            (Ok(StatementView::Delete(d)), p + 4),
        ),
{
    reveal_strlit("DELETE");
    reveal_strlit("FROM");
    reveal_strlit("CREATE");
    reveal_strlit("C");
    reveal_strlit("INSERT");
    reveal_strlit("I");
    let xs = delete_items(d);
    lemma_token_of(s, t, its, p, xs, 0);
    lemma_token_of(s, t, its, p, xs, 1);
    lemma_token_of(s, t, its, p, xs, 2);
    lemma_token_of(s, t, its, p, xs, 3);
    lemma_kw_differs("DELETE"@, "CREATE"@, 0);
    lemma_kw_differs("DELETE"@, "C"@, 0);
    lemma_kw_differs("DELETE"@, "INSERT"@, 0);
    lemma_kw_differs("DELETE"@, "I"@, 0);
    lemma_kw_self("DELETE"@);
    lemma_kw_self("FROM"@);
    assert(kw_at(s, t, p, "DELETE"@));
    assert(from_kw_at(s, t, p + 2));
    assert(ident_at(s, t, p + 3));
    assert(parse_delete(s, t, p + 1) == Ok::<(Result<StatementView, ParseFailure>, int), nat>(
        (Ok(StatementView::Delete(DeleteStView { table_name: d.table_name, key: d.key })), p + 4),
    ));
}

/// One statement whose tokens are all the tokens reads as itself, then the end.
proof fn lemma_single_statement(s: Seq<char>, t: Seq<Token>, st: StatementView)
    requires
        t.len() > 0,
        parse_statement(s, t, 0) == Ok::<(Result<StatementView, ParseFailure>, int), nat>((Ok(st), t.len() as int)),
    ensures
        parse_all(s, t, 0, Seq::empty(), None) == Ok::<Seq<StatementView>, ParseFailure>(
            seq![st, StatementView::NoStatement],
        ),
{
    let one = Seq::<StatementView>::empty().push(st);
    assert(parse_all(s, t, t.len() as int, one, None) == Ok::<Seq<StatementView>, ParseFailure>(
        one.push(StatementView::NoStatement),
    ));
    assert(one.push(StatementView::NoStatement) =~= seq![st, StatementView::NoStatement]);
}

/// Tokens read as a `DELETE` alone parse as that statement.
proof fn lemma_delete_parse(s: Seq<char>, t: Seq<Token>, d: DeleteStView)
    requires
        tokens_read(s, t, delete_items(d)),
        is_ident(d.table_name),
    ensures
        parse_all(s, t, 0, Seq::empty(), None) == Ok::<Seq<StatementView>, ParseFailure>(
            seq![StatementView::Delete(d), StatementView::NoStatement],
        ),
{
    lemma_delete_parse_at(s, t, delete_items(d), 0, d);
    lemma_single_statement(s, t, StatementView::Delete(d));
}

/// The text of a `DELETE` whose key is one word and whose table is a name reads back as
/// the same statement.
pub proof fn law_delete_reads_back(d: DeleteStView)
    requires
        is_plain_word(d.key),
        is_ident(d.table_name),
        statement_text(StatementView::Delete(d)).len() < usize::MAX,
    ensures
        parse_query(statement_text(StatementView::Delete(d))) == Ok::<Seq<StatementView>, ParseFailure>(
            seq![StatementView::Delete(d), StatementView::NoStatement],
        ),
{
    lemma_delete_layout(d);
    let s = statement_text(StatementView::Delete(d));
    lemma_delete_parse(s, lex(s), d);
}

/// Three pieces: their text and items.
proof fn lemma_three_pieces(ps: Seq<Piece>)
    requires
        ps.len() == 3,
    ensures
        pieces_text(ps) == piece_text(ps[0]) + piece_text(ps[1]) + piece_text(ps[2]),
        items(ps) == piece_items(ps[0]) + piece_items(ps[1]) + piece_items(ps[2]),
{
    let e = Seq::<Piece>::empty();
    lemma_push_piece(e, ps[0]);
    lemma_push_piece(ps.take(1), ps[1]);
    lemma_push_piece(ps.take(2), ps[2]);
    assert(e.push(ps[0]) =~= ps.take(1));
    assert(ps.take(1).push(ps[1]) =~= ps.take(2));
    assert(ps.take(2).push(ps[2]) =~= ps);
    assert(pieces_text(e) =~= Seq::<char>::empty());
    assert(items(e) =~= Seq::<(TokenKind, Seq<char>)>::empty());
    assert(pieces_text(ps) =~= piece_text(ps[0]) + piece_text(ps[1]) + piece_text(ps[2]));
    assert(items(ps) =~= piece_items(ps[0]) + piece_items(ps[1]) + piece_items(ps[2]));
}

/// A keyword, a space and a path.
pub open spec fn path_pieces(kw: Seq<char>, path: Seq<char>) -> Seq<Piece> {
    seq![Piece::Word(kw), Piece::Sep(' '), Piece::Word(path)]
}

/// The text of a keyword followed by a path, and its tokens.
pub proof fn lemma_path_layout(kw: Seq<char>, path: Seq<char>)
    requires
        is_plain_word(kw),
        is_plain_word(path),
    ensures
        layout_ok(path_pieces(kw, path), kw + seq![' '] + path, seq![(TokenKind::Word, kw), (TokenKind::Word, path)]),
        (kw + seq![' '] + path).len() < usize::MAX ==> tokens_read(kw + seq![' '] + path, lex(kw + seq![' '] + path), seq![(TokenKind::Word, kw), (TokenKind::Word, path)]),
{
    let ps = seq![Piece::Word(kw), Piece::Sep(' '), Piece::Word(path)];
    lemma_three_pieces(ps);
    assert(pieces_text(ps) =~= kw + seq![' '] + path);
    assert(items(ps) =~= seq![(TokenKind::Word, kw), (TokenKind::Word, path)]);
    assert(pieces_ok(ps)) by {
        assert(piece_ok(ps[0]));
        assert(piece_ok(ps[2]));
    }
    assert(ps == path_pieces(kw, path));
    if (kw + seq![' '] + path).len() < usize::MAX {
        lemma_read_pieces(ps);
    }
}

/// The text of a `READ_FROM` of a one-word path reads back as the same statement.
pub proof fn law_read_reads_back(path: Seq<char>)
    requires
        is_plain_word(path),
        statement_text(StatementView::Read(path)).len() < usize::MAX,
    ensures
        parse_query(statement_text(StatementView::Read(path))) == Ok::<Seq<StatementView>, ParseFailure>(
            seq![StatementView::Read(path), StatementView::NoStatement],
        ),
{
    reveal_strlit("READ_FROM");
    reveal_strlit("READ_FROM ");
    let kw = "READ_FROM"@;
    let s = statement_text(StatementView::Read(path));
    assert(s =~= kw + seq![' '] + path);
    assert(is_plain_word(kw)) by {
        assert forall|i: int| 0 <= i < kw.len() implies is_word_char(#[trigger] kw[i]) by {}
    }
    lemma_path_layout(kw, path);
    lemma_read_parse(s, lex(s), path);
}

pub proof fn lemma_read_parse_at(s: Seq<char>, t: Seq<Token>, its: Seq<(TokenKind, Seq<char>)>, p: int, path: Seq<char>)
    requires
        tokens_read(s, t, its),
        items_at(its, p, seq![(TokenKind::Word, "READ_FROM"@), (TokenKind::Word, path)]),
    ensures
        parse_statement(s, t, p) == Ok::<(Result<StatementView, ParseFailure>, int), nat>(
            (Ok(StatementView::Read(path)), p + 2),
        ),
{
    reveal_strlit("READ_FROM");
    reveal_strlit("CREATE");
    reveal_strlit("C");
    reveal_strlit("INSERT");
    reveal_strlit("I");
    reveal_strlit("DELETE");
    reveal_strlit("D");
    reveal_strlit("SELECT");
    reveal_strlit("SAVE_AS");
    reveal_strlit("SAVE");
    reveal_strlit("S_A");
    let xs = seq![(TokenKind::Word, "READ_FROM"@), (TokenKind::Word, path)];
    lemma_token_of(s, t, its, p, xs, 0);
    lemma_token_of(s, t, its, p, xs, 1);
    let w = "READ_FROM"@;
    lemma_kw_differs(w, "CREATE"@, 0);
    lemma_kw_differs(w, "C"@, 0);
    lemma_kw_differs(w, "INSERT"@, 0);
    lemma_kw_differs(w, "I"@, 0);
    lemma_kw_differs(w, "DELETE"@, 0);
    lemma_kw_differs(w, "D"@, 0);
    lemma_kw_differs(w, "SELECT"@, 0);
    lemma_kw_differs(w, "SAVE_AS"@, 0);
    lemma_kw_differs(w, "SAVE"@, 0);
    lemma_kw_differs(w, "S_A"@, 0);
    lemma_kw_self(w);
}

proof fn lemma_read_parse(s: Seq<char>, t: Seq<Token>, path: Seq<char>)
    requires
        tokens_read(s, t, seq![(TokenKind::Word, "READ_FROM"@), (TokenKind::Word, path)]),
    ensures
        parse_all(s, t, 0, Seq::empty(), None) == Ok::<Seq<StatementView>, ParseFailure>(
            seq![StatementView::Read(path), StatementView::NoStatement],
        ),
{
    lemma_read_parse_at(s, t, seq![(TokenKind::Word, "READ_FROM"@), (TokenKind::Word, path)], 0, path);
    lemma_single_statement(s, t, StatementView::Read(path));
}

/// The text of a `SAVE_AS` to a one-word path reads back as the same statement.
pub proof fn law_save_reads_back(path: Seq<char>)
    requires
        is_plain_word(path),
        statement_text(StatementView::Save(path)).len() < usize::MAX,
    ensures
        parse_query(statement_text(StatementView::Save(path))) == Ok::<Seq<StatementView>, ParseFailure>(
            seq![StatementView::Save(path), StatementView::NoStatement],
        ),
{
    reveal_strlit("SAVE_AS");
    reveal_strlit("SAVE_AS ");
    let kw = "SAVE_AS"@;
    let s = statement_text(StatementView::Save(path));
    assert(s =~= kw + seq![' '] + path);
    assert(is_plain_word(kw)) by {
        assert forall|i: int| 0 <= i < kw.len() implies is_word_char(#[trigger] kw[i]) by {}
    }
    lemma_path_layout(kw, path);
    lemma_save_parse(s, lex(s), path);
}

pub proof fn lemma_save_parse_at(s: Seq<char>, t: Seq<Token>, its: Seq<(TokenKind, Seq<char>)>, p: int, path: Seq<char>)
    requires
        tokens_read(s, t, its),
        items_at(its, p, seq![(TokenKind::Word, "SAVE_AS"@), (TokenKind::Word, path)]),
    ensures
        parse_statement(s, t, p) == Ok::<(Result<StatementView, ParseFailure>, int), nat>(
            (Ok(StatementView::Save(path)), p + 2),
        ),
{
    reveal_strlit("SAVE_AS");
    reveal_strlit("CREATE");
    reveal_strlit("C");
    reveal_strlit("INSERT");
    reveal_strlit("I");
    reveal_strlit("DELETE");
    reveal_strlit("D");
    reveal_strlit("SELECT");
    let xs = seq![(TokenKind::Word, "SAVE_AS"@), (TokenKind::Word, path)];
    lemma_token_of(s, t, its, p, xs, 0);
    lemma_token_of(s, t, its, p, xs, 1);
    let w = "SAVE_AS"@;
    lemma_kw_differs(w, "CREATE"@, 0);
    lemma_kw_differs(w, "C"@, 0);
    lemma_kw_differs(w, "INSERT"@, 0);
    lemma_kw_differs(w, "I"@, 0);
    lemma_kw_differs(w, "DELETE"@, 0);
    lemma_kw_differs(w, "D"@, 0);
    lemma_kw_differs(w, "SELECT"@, 1);
    lemma_kw_self(w);
}

proof fn lemma_save_parse(s: Seq<char>, t: Seq<Token>, path: Seq<char>)
    requires
        tokens_read(s, t, seq![(TokenKind::Word, "SAVE_AS"@), (TokenKind::Word, path)]),
    ensures
        parse_all(s, t, 0, Seq::empty(), None) == Ok::<Seq<StatementView>, ParseFailure>(
            seq![StatementView::Save(path), StatementView::NoStatement],
        ),
{
    lemma_save_parse_at(s, t, seq![(TokenKind::Word, "SAVE_AS"@), (TokenKind::Word, path)], 0, path);
    lemma_single_statement(s, t, StatementView::Save(path));
}

/// Joining well-made pieces keeps them well made when no two words meet at the joint.
pub proof fn lemma_pieces_ok_concat(a: Seq<Piece>, b: Seq<Piece>)
    requires
        pieces_ok(a),
        pieces_ok(b),
        a.len() == 0 || b.len() == 0 || !(a.last() is Word && b[0] is Word),
    ensures
        pieces_ok(a + b),
{
    let c = a + b;
    assert forall|i: int| 0 <= i < c.len() implies piece_ok(#[trigger] c[i]) by {
        if i < a.len() {
            assert(piece_ok(a[i]));
        } else {
            assert(piece_ok(b[i - a.len()]));
        }
    }
    assert forall|i: int| 0 <= i < c.len() - 1 implies !(#[trigger] c[i] is Word && c[i + 1] is Word) by {
        if i < a.len() - 1 {
            assert(!(a[i] is Word && a[i + 1] is Word));
        } else if i >= a.len() {
            assert(!(b[i - a.len()] is Word && b[i - a.len() + 1] is Word));
        }
    }
}

/// Words separated by `, `.
pub open spec fn list_pieces(ws: Seq<Seq<char>>) -> Seq<Piece>
    decreases ws.len(),
{
    if ws.len() == 0 {
        Seq::empty()
    } else if ws.len() == 1 {
        seq![Piece::Word(ws[0])]
    } else {
        list_pieces(ws.drop_last()) + seq![Piece::Sep(','), Piece::Sep(' '), Piece::Word(ws.last())]
    }
}

/// Each word as a token item.
pub open spec fn word_items(ws: Seq<Seq<char>>) -> Seq<(TokenKind, Seq<char>)> {
    ws.map_values(|w: Seq<char>| (TokenKind::Word, w))
}

/// The text of `list_pieces` is the words joined by `, `; its tokens are the words.
pub proof fn lemma_list_pieces(ws: Seq<Seq<char>>)
    ensures
        pieces_text(list_pieces(ws)) == crate::text::join(ws, ", "@),
        items(list_pieces(ws)) == word_items(ws),
        (forall|i: int| 0 <= i < ws.len() ==> is_plain_word(#[trigger] ws[i])) ==> pieces_ok(list_pieces(ws)),
        ws.len() > 0 ==> list_pieces(ws).len() > 0 && list_pieces(ws)[0] == Piece::Word(ws[0]) && list_pieces(
            ws,
        ).last() == Piece::Word(ws.last()),
    decreases ws.len(),
{
    reveal_strlit(", ");
    if ws.len() == 0 {
        assert(word_items(ws) =~= Seq::<(TokenKind, Seq<char>)>::empty());
    } else if ws.len() == 1 {
        let ps = seq![Piece::Word(ws[0])];
        lemma_push_piece(Seq::<Piece>::empty(), ps[0]);
        assert(Seq::<Piece>::empty().push(ps[0]) =~= ps);
        assert(pieces_text(Seq::<Piece>::empty()) =~= Seq::<char>::empty());
        assert(items(Seq::<Piece>::empty()) =~= Seq::<(TokenKind, Seq<char>)>::empty());
        assert(pieces_text(ps) =~= ws[0]);
        assert(word_items(ws) =~= seq![(TokenKind::Word, ws[0])]);
        if forall|i: int| 0 <= i < ws.len() ==> is_plain_word(#[trigger] ws[i]) {
            assert(is_plain_word(ws[0]));
            assert(piece_ok(ps[0]));
        }
    } else {
        let init = ws.drop_last();
        lemma_list_pieces(init);
        let tail = seq![Piece::Sep(','), Piece::Sep(' '), Piece::Word(ws.last())];
        lemma_three_pieces(tail);
        lemma_pieces_text_concat(list_pieces(init), tail);
        lemma_items_concat(list_pieces(init), tail);
        assert(pieces_text(tail) =~= ", "@ + ws.last());
        assert(crate::text::join(ws, ", "@) == crate::text::join(init, ", "@) + ", "@ + ws.last());
        assert(pieces_text(list_pieces(ws)) =~= crate::text::join(ws, ", "@));
        assert(word_items(ws) =~= word_items(init) + seq![(TokenKind::Word, ws.last())]);
        assert(items(tail) =~= seq![(TokenKind::Word, ws.last())]);
        if forall|i: int| 0 <= i < ws.len() ==> is_plain_word(#[trigger] ws[i]) {
            assert forall|i: int| 0 <= i < init.len() implies is_plain_word(#[trigger] init[i]) by {
                assert(init[i] == ws[i]);
            }
            assert(is_plain_word(ws[ws.len() - 1]));
            assert(pieces_ok(tail)) by {
                assert(piece_ok(tail[0]));
                assert(piece_ok(tail[1]));
                assert(piece_ok(tail[2]));
            }
            lemma_pieces_ok_concat(list_pieces(init), tail);
        }
        let lp = list_pieces(ws);
        assert(lp[0] == list_pieces(init)[0]);
    }
}

/// The decimal text of a number is its digits, and reads back as the number.
pub proof fn lemma_nat_text(n: nat)
    ensures
        nat_text(n).len() > 0,
        all_digits(nat_text(n)),
        digits_val(nat_text(n)) == n,
    decreases n,
{
    if n >= 10 {
        lemma_nat_text(n / 10);
        let p = nat_text(n / 10);
        let c = digit_char((n % 10) as nat);
        crate::text::lemma_digits_val_push(p, c);
        assert(nat_text(n) == p.push(c));
        assert forall|i: int| 0 <= i < p.push(c).len() implies #[trigger] is_digit(p.push(c)[i]) by {
            if i < p.len() {
                assert(is_digit(p[i]));
            }
        }
    } else {
        let c = digit_char(n);
        assert(nat_text(n) == seq![c]);
        assert(seq![c].drop_last() =~= Seq::<char>::empty());
        assert(digits_val(seq![c]) == digits_val(Seq::<char>::empty()) * 10 + digit_of(c));
    }
}

/// A space, a keyword, a space and a word: their text and items.
proof fn lemma_clause_pieces(kw: Seq<char>, w: Seq<char>)
    ensures
        pieces_text(clause_pieces(kw, w)) == seq![' '] + kw + seq![' '] + w,
        items(clause_pieces(kw, w)) == seq![(TokenKind::Word, kw), (TokenKind::Word, w)],
        is_plain_word(kw) && is_plain_word(w) ==> pieces_ok(clause_pieces(kw, w)),
{
    let ps = clause_pieces(kw, w);
    let e = Seq::<Piece>::empty();
    lemma_push_piece(e, ps[0]);
    lemma_push_piece(ps.take(1), ps[1]);
    lemma_push_piece(ps.take(2), ps[2]);
    lemma_push_piece(ps.take(3), ps[3]);
    assert(e.push(ps[0]) =~= ps.take(1));
    assert(ps.take(1).push(ps[1]) =~= ps.take(2));
    assert(ps.take(2).push(ps[2]) =~= ps.take(3));
    assert(ps.take(3).push(ps[3]) =~= ps);
    assert(pieces_text(e) =~= Seq::<char>::empty());
    assert(items(e) =~= Seq::<(TokenKind, Seq<char>)>::empty());
    assert(pieces_text(ps) =~= seq![' '] + kw + seq![' '] + w);
    assert(items(ps) =~= seq![(TokenKind::Word, kw), (TokenKind::Word, w)]);
    if is_plain_word(kw) && is_plain_word(w) {
        assert(piece_ok(ps[0]));
        assert(piece_ok(ps[1]));
        assert(piece_ok(ps[2]));
        assert(piece_ok(ps[3]));
    }
}

/// ` <kw> <w>`
pub open spec fn clause_pieces(kw: Seq<char>, w: Seq<char>) -> Seq<Piece> {
    seq![Piece::Sep(' '), Piece::Word(kw), Piece::Sep(' '), Piece::Word(w)]
}

/// `w` is the keyword `FROM` or `F`, in any case.
pub open spec fn is_from_kw(w: Seq<char>) -> bool {
    matches_ci(w, "FROM"@) || matches_ci(w, "F"@)
}

/// The columns part of a `SELECT`.
pub open spec fn select_cols_pieces(st: SelectStView) -> Seq<Piece> {
    if st.all_rows {
        seq![Piece::Word(seq!['*'])]
    } else {
        list_pieces(st.rows)
    }
}

pub open spec fn select_cols_items(st: SelectStView) -> Seq<(TokenKind, Seq<char>)> {
    if st.all_rows {
        seq![(TokenKind::Word, seq!['*'])]
    } else {
        word_items(st.rows)
    }
}

pub open spec fn select_ob_pieces(st: SelectStView) -> Seq<Piece> {
    match st.order_by {
        Some(o) => clause_pieces("ORDER_BY"@, o),
        None => Seq::empty(),
    }
}

pub open spec fn select_ob_items(st: SelectStView) -> Seq<(TokenKind, Seq<char>)> {
    match st.order_by {
        Some(o) => seq![(TokenKind::Word, "ORDER_BY"@), (TokenKind::Word, o)],
        None => Seq::empty(),
    }
}

pub open spec fn select_limit_pieces(st: SelectStView) -> Seq<Piece> {
    match st.limit {
        Some(l) => clause_pieces("LIMIT"@, nat_text(l as nat)),
        None => Seq::empty(),
    }
}

pub open spec fn select_limit_items(st: SelectStView) -> Seq<(TokenKind, Seq<char>)> {
    match st.limit {
        Some(l) => seq![(TokenKind::Word, "LIMIT"@), (TokenKind::Word, nat_text(l as nat))],
        None => Seq::empty(),
    }
}

/// The pieces of a `SELECT`.
pub open spec fn select_pieces(st: SelectStView) -> Seq<Piece> {
    seq![Piece::Word("SELECT"@), Piece::Sep(' ')] + select_cols_pieces(st) + clause_pieces("FROM"@, st.table_name)
        + select_ob_pieces(st) + select_limit_pieces(st)
}

/// The items of a `SELECT`'s tokens.
pub open spec fn select_items(st: SelectStView) -> Seq<(TokenKind, Seq<char>)> {
    seq![(TokenKind::Word, "SELECT"@)] + select_cols_items(st) + seq![(TokenKind::Word, "FROM"@), (TokenKind::Word, st.table_name)]
        + select_ob_items(st) + select_limit_items(st)
}

/// A `SELECT` that can be written and read back: `*` with no column list, or one or
/// more columns that are names other than `FROM`; a named table; a named `ORDER_BY` field.
pub open spec fn select_writable(st: SelectStView) -> bool {
    &&& st.all_rows ==> st.rows.len() == 0
    &&& !st.all_rows ==> st.rows.len() > 0 && forall|i: int| 0 <= i < st.rows.len() ==> is_ident(#[trigger] st.rows[i])
        && !is_from_kw(st.rows[i])
    &&& is_ident(st.table_name)
    &&& st.order_by matches Some(o) ==> is_ident(o)
}

proof fn lemma_plain_keyword(k: Seq<char>)
    requires
        k.len() > 0,
        forall|i: int| 0 <= i < k.len() ==> ('A' <= #[trigger] k[i] && k[i] <= 'Z') || k[i] == '_',
    ensures
        is_plain_word(k),
{
}

/// The text of a `SELECT` is that of its pieces, and its tokens are its items.
pub proof fn lemma_select_layout(st: SelectStView)
    requires
        select_writable(st),
    ensures
        layout_ok(select_pieces(st), statement_text(StatementView::Select(st)), select_items(st)),
        statement_text(StatementView::Select(st)).len() < usize::MAX ==> tokens_read(statement_text(StatementView::Select(st)), lex(statement_text(StatementView::Select(st))), select_items(st)),
{
    reveal_strlit("SELECT");
    reveal_strlit("FROM");
    reveal_strlit("ORDER_BY");
    reveal_strlit("LIMIT");
    reveal_strlit("SELECT ");
    reveal_strlit(" FROM ");
    reveal_strlit(" ORDER_BY ");
    reveal_strlit(" LIMIT ");
    reveal_strlit("*");
    let head = seq![Piece::Word("SELECT"@), Piece::Sep(' ')];
    let cols = select_cols_pieces(st);
    let mid = clause_pieces("FROM"@, st.table_name);
    let ob = select_ob_pieces(st);
    let lim = select_limit_pieces(st);
    // text and items of each part
    lemma_push_piece(Seq::<Piece>::empty(), head[0]);
    lemma_push_piece(seq![head[0]], head[1]);
    assert(Seq::<Piece>::empty().push(head[0]) =~= seq![head[0]]);
    assert(seq![head[0]].push(head[1]) =~= head);
    assert(pieces_text(Seq::<Piece>::empty()) =~= Seq::<char>::empty());
    assert(items(Seq::<Piece>::empty()) =~= Seq::<(TokenKind, Seq<char>)>::empty());
    assert(pieces_text(head) =~= "SELECT "@);
    assert(items(head) =~= seq![(TokenKind::Word, "SELECT"@)]);
    if st.all_rows {
        lemma_push_piece(Seq::<Piece>::empty(), cols[0]);
        assert(Seq::<Piece>::empty().push(cols[0]) =~= cols);
        assert(pieces_text(cols) =~= "*"@);
        assert(items(cols) =~= select_cols_items(st));
    } else {
        lemma_list_pieces(st.rows);
        assert forall|i: int| 0 <= i < st.rows.len() implies is_plain_word(#[trigger] st.rows[i]) by {
            lemma_ident_is_word(st.rows[i]);
        }
    }
    lemma_clause_pieces("FROM"@, st.table_name);
    lemma_ident_is_word(st.table_name);
    lemma_plain_keyword("SELECT"@);
    lemma_plain_keyword("FROM"@);
    lemma_plain_keyword("ORDER_BY"@);
    lemma_plain_keyword("LIMIT"@);
    match st.order_by {
        Some(o) => {
            lemma_clause_pieces("ORDER_BY"@, o);
            lemma_ident_is_word(o);
        },
        None => {
            assert(pieces_text(ob) =~= Seq::<char>::empty());
            assert(items(ob) =~= Seq::<(TokenKind, Seq<char>)>::empty());
        },
    }
    match st.limit {
        Some(l) => {
            lemma_clause_pieces("LIMIT"@, nat_text(l as nat));
            lemma_nat_text(l as nat);
            assert(is_plain_word(nat_text(l as nat))) by {
                assert forall|i: int| 0 <= i < nat_text(l as nat).len() implies is_word_char(
                    #[trigger] nat_text(l as nat)[i],
                ) by {
                    assert(is_digit(nat_text(l as nat)[i]));
                }
            }
        },
        None => {
            assert(pieces_text(lim) =~= Seq::<char>::empty());
            assert(items(lim) =~= Seq::<(TokenKind, Seq<char>)>::empty());
        },
    }
    // joining the parts
    lemma_pieces_text_concat(head, cols);
    lemma_pieces_text_concat(head + cols, mid);
    lemma_pieces_text_concat(head + cols + mid, ob);
    lemma_pieces_text_concat(head + cols + mid + ob, lim);
    lemma_items_concat(head, cols);
    lemma_items_concat(head + cols, mid);
    lemma_items_concat(head + cols + mid, ob);
    lemma_items_concat(head + cols + mid + ob, lim);
    let ps = select_pieces(st);
    assert(ps == head + cols + mid + ob + lim);
    assert(pieces_text(ps) =~= statement_text(StatementView::Select(st)));
    assert(items(ps) =~= select_items(st));
    assert(pieces_ok(head)) by {
        assert(piece_ok(head[0]));
        assert(piece_ok(head[1]));
    }
    assert(pieces_ok(cols)) by {
        if st.all_rows {
            assert(piece_ok(cols[0]));
        }
    }
    assert(cols.len() > 0 && cols[0] is Word && cols.last() is Word);
    lemma_pieces_ok_concat(head, cols);
    lemma_pieces_ok_concat(head + cols, mid);
    assert(pieces_ok(ob)) by {
        if st.order_by is None {
            assert(ob.len() == 0);
        }
    }
    assert(pieces_ok(lim)) by {
        if st.limit is None {
            assert(lim.len() == 0);
        }
    }
    lemma_pieces_ok_concat(head + cols + mid, ob);
    lemma_pieces_ok_concat(head + cols + mid + ob, lim);
    assert(ps == select_pieces(st));
    if statement_text(StatementView::Select(st)).len() < usize::MAX {
        lemma_read_pieces(ps);
    }
}

/// Column names up to `FROM` are read in order.
proof fn lemma_parse_columns(
    s: Seq<char>,
    t: Seq<Token>,
    its: Seq<(TokenKind, Seq<char>)>,
    q: int,
    rows: Seq<Seq<char>>,
    acc: Seq<Seq<char>>,
)
    requires
        tokens_read(s, t, its),
        0 <= q,
        q + rows.len() < its.len(),
        forall|j: int| 0 <= j < rows.len() ==> its[q + j] == (TokenKind::Word, #[trigger] rows[j]) && is_ident(rows[j])
            && !is_from_kw(rows[j]),
        its[q + rows.len()].0 == TokenKind::Word,
        is_from_kw(its[q + rows.len()].1),
    ensures
        parse_columns(s, t, q, acc) == Ok::<(Seq<Seq<char>>, int), nat>((acc + rows, q + rows.len())),
    decreases rows.len(),
{
    lemma_token_at(s, t, its, q);
    if rows.len() == 0 {
        assert(acc + rows =~= acc);
    } else {
        let r0 = rows[0];
        assert(its[q] == (TokenKind::Word, r0));
        let rest = rows.drop_first();
        assert forall|j: int| 0 <= j < rest.len() implies its[q + 1 + j] == (TokenKind::Word, #[trigger] rest[j])
            && is_ident(rest[j]) && !is_from_kw(rest[j]) by {
            assert(rest[j] == rows[j + 1]);
        }
        lemma_parse_columns(s, t, its, q + 1, rest, acc.push(r0));
        assert(acc.push(r0) + rest =~= acc + rows);
    }
}

/// A token that is neither `LIMIT` nor `ORDER_BY` ends the modifiers.
proof fn lemma_parse_mods_end(s: Seq<char>, t: Seq<Token>, its: Seq<(TokenKind, Seq<char>)>, q: int, l: Option<u64>, o: Option<Seq<char>>)
    requires
        tokens_read(s, t, its),
        0 <= q,
        stops_statement(its, q),
    ensures
        parse_mods(s, t, q, l, o, None) == Ok::<(Option<u64>, Option<Seq<char>>, Option<ParsingErrView>, int), nat>(
            (l, o, None, q),
        ),
{
    if q < its.len() {
        lemma_token_at(s, t, its, q);
    }
}

/// The modifiers of a `SELECT`'s text are read back.
proof fn lemma_parse_select_mods(s: Seq<char>, t: Seq<Token>, its: Seq<(TokenKind, Seq<char>)>, q: int, st: SelectStView)
    requires
        tokens_read(s, t, its),
        items_at(its, q, select_ob_items(st) + select_limit_items(st)),
        stops_statement(its, q + select_ob_items(st).len() + select_limit_items(st).len()),
        st.order_by matches Some(o) ==> is_ident(o),
    ensures
        parse_mods(s, t, q, None, None, None) == Ok::<(Option<u64>, Option<Seq<char>>, Option<ParsingErrView>, int), nat>(
            (st.limit, st.order_by, None, q + select_ob_items(st).len() + select_limit_items(st).len()),
        ),
{
    reveal_strlit("ORDER_BY");
    reveal_strlit("LIMIT");
    lemma_kw_self("ORDER_BY"@);
    lemma_kw_self("LIMIT"@);
    lemma_kw_differs("ORDER_BY"@, "LIMIT"@, 0);
    let ob = select_ob_items(st);
    let li = select_limit_items(st);
    let xs = ob + li;
    let q2 = q + ob.len() as int;
    let end = q2 + li.len();
    match st.limit {
        Some(l) => {
            assert(xs[ob.len() as int] == li[0]);
            assert(xs[ob.len() as int + 1] == li[1]);
            lemma_token_of(s, t, its, q, xs, ob.len() as int);
            lemma_token_of(s, t, its, q, xs, ob.len() as int + 1);
            lemma_nat_text(l as nat);
            lemma_parse_mods_end(s, t, its, q2 + 2, Some(l), st.order_by);
            assert(parse_mods(s, t, q2, None, st.order_by, None) == parse_mods(s, t, q2 + 2, Some(l), st.order_by, None));
        },
        None => {
            lemma_parse_mods_end(s, t, its, q2, None, st.order_by);
        },
    }
    match st.order_by {
        Some(o) => {
            assert(xs[0] == ob[0]);
            assert(xs[1] == ob[1]);
            lemma_token_of(s, t, its, q, xs, 0);
            lemma_token_of(s, t, its, q, xs, 1);
            assert(parse_mods(s, t, q, None, None, None) == parse_mods(s, t, q + 2, None, Some(o), None));
        },
        None => {},
    }
}

/// Tokens read as a `SELECT` parse as that statement.
pub proof fn lemma_select_parse_at(s: Seq<char>, t: Seq<Token>, its: Seq<(TokenKind, Seq<char>)>, p: int, st: SelectStView)
    requires
        tokens_read(s, t, its),
        items_at(its, p, select_items(st)),
        stops_statement(its, p + select_items(st).len()),
        select_writable(st),
    ensures
        parse_statement(s, t, p) == Ok::<(Result<StatementView, ParseFailure>, int), nat>(
            (Ok(StatementView::Select(st)), p + select_items(st).len()),
        ),
{
    reveal_strlit("SELECT");
    reveal_strlit("FROM");
    reveal_strlit("CREATE");
    reveal_strlit("C");
    reveal_strlit("INSERT");
    reveal_strlit("I");
    reveal_strlit("DELETE");
    reveal_strlit("D");
    let xs = select_items(st);
    let ci = select_cols_items(st);
    let n = ci.len() as int;
    let mods = select_ob_items(st) + select_limit_items(st);
    assert(xs =~= seq![(TokenKind::Word, "SELECT"@)] + ci + seq![(TokenKind::Word, "FROM"@), (TokenKind::Word, st.table_name)] + mods);
    lemma_token_of(s, t, its, p, xs, 0);
    lemma_token_of(s, t, its, p, xs, 1);
    lemma_kw_differs("SELECT"@, "CREATE"@, 0);
    lemma_kw_differs("SELECT"@, "C"@, 0);
    lemma_kw_differs("SELECT"@, "INSERT"@, 0);
    lemma_kw_differs("SELECT"@, "I"@, 0);
    lemma_kw_differs("SELECT"@, "DELETE"@, 0);
    lemma_kw_differs("SELECT"@, "D"@, 0);
    lemma_kw_self("SELECT"@);
    lemma_kw_self("FROM"@);
    assert(kw_at(s, t, p, "SELECT"@));
    assert(xs[1 + n] == (TokenKind::Word, "FROM"@));
    assert(xs[2 + n] == (TokenKind::Word, st.table_name));
    lemma_token_of(s, t, its, p, xs, 1 + n);
    lemma_token_of(s, t, its, p, xs, 2 + n);
    assert(from_kw_at(s, t, p + 1 + n));
    assert(ident_at(s, t, p + 2 + n));
    if st.all_rows {
        assert(xs[1] == (TokenKind::Word, seq!['*']));
        assert(st.rows =~= Seq::<Seq<char>>::empty());
    } else {
        assert(n == st.rows.len());
        assert forall|j: int| 0 <= j < st.rows.len() implies its[p + 1 + j] == (TokenKind::Word, #[trigger] st.rows[j])
            && is_ident(st.rows[j]) && !is_from_kw(st.rows[j]) by {
            assert(its[p + (1 + j)] == xs[1 + j]);
            assert(xs[1 + j] == ci[j]);
        }
        assert(its[p + 1 + n] == xs[1 + n]);
        lemma_parse_columns(s, t, its, p + 1, st.rows, Seq::empty());
        assert(Seq::<Seq<char>>::empty() + st.rows =~= st.rows);
        let r0 = st.rows[0];
        assert(xs[1] == (TokenKind::Word, r0));
        assert(is_ident(r0));
        assert(!is_from_kw(r0));
        if r0 == seq!['*'] {
            assert(is_ident_char(r0[0]));
        }
    }
    assert(items_at(its, p + 3 + n, mods)) by {
        assert forall|i: int| 0 <= i < mods.len() implies its[p + 3 + n + i] == #[trigger] mods[i] by {
            assert(its[p + (3 + n + i)] == xs[3 + n + i]);
        }
    }
    lemma_parse_select_mods(s, t, its, p + 3 + n, st);
    assert(parse_select(s, t, p + 1) == Ok::<(Result<StatementView, ParseFailure>, int), nat>(
        (Ok(StatementView::Select(st)), p + xs.len()),
    ));
}

/// Tokens read as a `SELECT` alone parse as that statement.
proof fn lemma_select_parse(s: Seq<char>, t: Seq<Token>, st: SelectStView)
    requires
        tokens_read(s, t, select_items(st)),
        select_writable(st),
    ensures
        parse_all(s, t, 0, Seq::empty(), None) == Ok::<Seq<StatementView>, ParseFailure>(
            seq![StatementView::Select(st), StatementView::NoStatement],
        ),
{
    lemma_select_parse_at(s, t, select_items(st), 0, st);
    lemma_single_statement(s, t, StatementView::Select(st));
}

/// The text of a `SELECT` that can be written (see `select_writable`) reads back as the
/// same statement.
pub proof fn law_select_reads_back(st: SelectStView)
    requires
        select_writable(st),
        statement_text(StatementView::Select(st)).len() < usize::MAX,
    ensures
        parse_query(statement_text(StatementView::Select(st))) == Ok::<Seq<StatementView>, ParseFailure>(
            seq![StatementView::Select(st), StatementView::NoStatement],
        ),
{
    lemma_select_layout(st);
    let s = statement_text(StatementView::Select(st));
    lemma_select_parse(s, lex(s), st);
}

/// The names increase strictly.
pub open spec fn names_increasing(names: Seq<Seq<char>>) -> bool {
    forall|i: int, j: int| 0 <= i < j < names.len() ==> text_lt(#[trigger] names[i], #[trigger] names[j])
}

/// Sorting positions that are already in order keeps them.
proof fn lemma_sort_positions_in_order(n: nat, le: spec_fn(usize, usize) -> bool)
    requires
        n <= usize::MAX,
        forall|a: usize, b: usize| (a as int) < (b as int) < n ==> #[trigger] le(a, b),
    ensures
        sort_by(Seq::new(n, |i: int| i as usize), le) == Seq::new(n, |i: int| i as usize),
    decreases n,
{
    if n > 0 {
        let p = Seq::new(n, |i: int| i as usize);
        let q = Seq::new((n - 1) as nat, |i: int| i as usize);
        assert(p.drop_last() =~= q);
        lemma_sort_positions_in_order((n - 1) as nat, le);
        if n == 1 {
            assert(insert_sorted(q, (n - 1) as usize, le) =~= p);
        } else {
            assert(q.last() == (n - 2) as usize);
            assert(le((n - 2) as usize, (n - 1) as usize));
            assert(q.push((n - 1) as usize) =~= p);
        }
    }
}

/// Names already in increasing order keep their positions.
pub proof fn lemma_name_order_sorted(names: Seq<Seq<char>>)
    requires
        names_increasing(names),
        names.len() <= usize::MAX,
    ensures
        name_order(names) == Seq::new(names.len(), |i: int| i as usize),
{
    let le = |a: usize, b: usize| !text_lt(names[b as int], names[a as int]);
    assert forall|a: usize, b: usize| (a as int) < (b as int) < names.len() implies #[trigger] le(a, b) by {
        crate::text::lemma_text_order(names[a as int], names[b as int], names[b as int]);
    }
    lemma_sort_positions_in_order(names.len(), le);
}

/// Groups of pieces separated by `, `.
pub open spec fn groups_pieces(gs: Seq<Seq<Piece>>) -> Seq<Piece>
    decreases gs.len(),
{
    if gs.len() == 0 {
        Seq::empty()
    } else if gs.len() == 1 {
        gs[0]
    } else {
        groups_pieces(gs.drop_last()) + seq![Piece::Sep(','), Piece::Sep(' ')] + gs.last()
    }
}

/// The items of the groups, in order.
pub open spec fn groups_items(gs: Seq<Seq<Piece>>) -> Seq<(TokenKind, Seq<char>)>
    decreases gs.len(),
{
    if gs.len() == 0 {
        Seq::empty()
    } else {
        groups_items(gs.drop_last()) + items(gs.last())
    }
}

/// A group that starts and ends with a word and is well made.
pub open spec fn group_ok(g: Seq<Piece>) -> bool {
    pieces_ok(g) && g.len() > 0 && g[0] is Word && g.last() is Word
}

pub proof fn lemma_groups_pieces(gs: Seq<Seq<Piece>>)
    ensures
        pieces_text(groups_pieces(gs)) == join(gs.map_values(|g: Seq<Piece>| pieces_text(g)), ", "@),
        items(groups_pieces(gs)) == groups_items(gs),
        gs.len() > 0 && (forall|i: int| 0 <= i < gs.len() ==> group_ok(#[trigger] gs[i])) ==> group_ok(groups_pieces(gs)),
    decreases gs.len(),
{
    reveal_strlit(", ");
    let texts = gs.map_values(|g: Seq<Piece>| pieces_text(g));
    if gs.len() == 0 {
    } else if gs.len() == 1 {
        assert(gs.drop_last() =~= Seq::<Seq<Piece>>::empty());
        assert(groups_items(Seq::<Seq<Piece>>::empty()) =~= Seq::<(TokenKind, Seq<char>)>::empty());
        assert(gs.last() == gs[0]);
        assert(groups_items(gs) =~= items(gs[0]));
        if forall|i: int| 0 <= i < gs.len() ==> group_ok(#[trigger] gs[i]) {
            assert(group_ok(gs[0]));
        }
    } else {
        let init = gs.drop_last();
        lemma_groups_pieces(init);
        let sep = seq![Piece::Sep(','), Piece::Sep(' ')];
        let a = groups_pieces(init);
        lemma_pieces_text_concat(a, sep);
        lemma_pieces_text_concat(a + sep, gs.last());
        lemma_items_concat(a, sep);
        lemma_items_concat(a + sep, gs.last());
        lemma_push_piece(Seq::<Piece>::empty(), sep[0]);
        lemma_push_piece(seq![sep[0]], sep[1]);
        assert(Seq::<Piece>::empty().push(sep[0]) =~= seq![sep[0]]);
        assert(seq![sep[0]].push(sep[1]) =~= sep);
        assert(pieces_text(Seq::<Piece>::empty()) =~= Seq::<char>::empty());
        assert(items(Seq::<Piece>::empty()) =~= Seq::<(TokenKind, Seq<char>)>::empty());
        assert(pieces_text(sep) =~= ", "@);
        assert(items(sep) =~= Seq::<(TokenKind, Seq<char>)>::empty());
        assert(texts.drop_last() =~= init.map_values(|g: Seq<Piece>| pieces_text(g)));
        assert(pieces_text(groups_pieces(gs)) =~= join(texts, ", "@));
        assert(items(groups_pieces(gs)) =~= groups_items(gs));
        if forall|i: int| 0 <= i < gs.len() ==> group_ok(#[trigger] gs[i]) {
            assert forall|i: int| 0 <= i < init.len() implies group_ok(#[trigger] init[i]) by {
                assert(init[i] == gs[i]);
            }
            assert(group_ok(gs[gs.len() - 1]));
            assert(pieces_ok(sep)) by {
                assert(piece_ok(sep[0]));
                assert(piece_ok(sep[1]));
            }
            lemma_pieces_ok_concat(a, sep);
            lemma_pieces_ok_concat(a + sep, gs.last());
            let r = groups_pieces(gs);
            assert(r[0] == a[0]);
        }
    }
}

/// `name: Type`
pub open spec fn def_group(e: (Seq<char>, ValueType)) -> Seq<Piece> {
    seq![Piece::Word(e.0), Piece::Colon, Piece::Sep(' '), Piece::Word(type_query_name(e.1))]
}

/// The items of `name: Type` for each field.
pub open spec fn defs_items(schema: Seq<(Seq<char>, ValueType)>) -> Seq<(TokenKind, Seq<char>)>
    decreases schema.len(),
{
    if schema.len() == 0 {
        Seq::empty()
    } else {
        defs_items(schema.drop_last()) + seq![(TokenKind::Word, schema.last().0), (TokenKind::Colon, seq![':']),
            (TokenKind::Word, type_query_name(schema.last().1))]
    }
}

proof fn lemma_defs_items(schema: Seq<(Seq<char>, ValueType)>)
    ensures
        defs_items(schema).len() == 3 * schema.len(),
        forall|j: int| 0 <= j < schema.len() ==> defs_items(schema)[3 * j] == (TokenKind::Word, (#[trigger] schema[j]).0)
            && defs_items(schema)[3 * j + 1] == (TokenKind::Colon, seq![':']) && defs_items(schema)[3 * j + 2] == (
            TokenKind::Word,
            type_query_name(schema[j].1),
        ),
        groups_items(schema.map_values(|e: (Seq<char>, ValueType)| def_group(e))) == defs_items(schema),
    decreases schema.len(),
{
    if schema.len() > 0 {
        let init = schema.drop_last();
        lemma_defs_items(init);
        let e = schema.last();
        let g = def_group(e);
        let gs = schema.map_values(|e: (Seq<char>, ValueType)| def_group(e));
        assert(gs.drop_last() =~= init.map_values(|e: (Seq<char>, ValueType)| def_group(e)));
        lemma_push_piece(Seq::<Piece>::empty(), g[0]);
        lemma_push_piece(g.take(1), g[1]);
        lemma_push_piece(g.take(2), g[2]);
        lemma_push_piece(g.take(3), g[3]);
        assert(Seq::<Piece>::empty().push(g[0]) =~= g.take(1));
        assert(g.take(1).push(g[1]) =~= g.take(2));
        assert(g.take(2).push(g[2]) =~= g.take(3));
        assert(g.take(3).push(g[3]) =~= g);
        assert(items(Seq::<Piece>::empty()) =~= Seq::<(TokenKind, Seq<char>)>::empty());
        assert(items(g) =~= seq![(TokenKind::Word, e.0), (TokenKind::Colon, seq![':']), (TokenKind::Word, type_query_name(e.1))]);
        let d = defs_items(schema);
        assert forall|j: int| 0 <= j < schema.len() implies d[3 * j] == (TokenKind::Word, (#[trigger] schema[j]).0)
            && d[3 * j + 1] == (TokenKind::Colon, seq![':']) && d[3 * j + 2] == (TokenKind::Word, type_query_name(schema[j].1)) by {
            if j < init.len() {
                assert(init[j] == schema[j]);
            }
        }
    }
}

/// A type name as `to_query_name` writes it reads back as its type: standing where a
/// `CREATE` gives a field's type, it is read as that type.
pub proof fn law_type_name_reads_back(s: Seq<char>, t: Seq<Token>, p: int, ty: ValueType)
    requires
        is_word_at(t, p),
        text_at(s, t, p) == type_query_name(ty),
    ensures
        type_at(s, t, p) == Some(ty),
{
    reveal_strlit("String");
    reveal_strlit("Int");
    reveal_strlit("Float");
    reveal_strlit("Bool");
    reveal_strlit("STRING");
    reveal_strlit("STR");
    reveal_strlit("INT");
    reveal_strlit("INTEGER");
    reveal_strlit("FLOAT");
    reveal_strlit("BOOL");
    reveal_strlit("BOOLEAN");
    let w = text_at(s, t, p);
    match ty {
        ValueType::String => {
            assert(matches_ci(w, "STRING"@)) by {
                assert(same_ci(w[1], 'T'));
                assert(same_ci(w[2], 'R'));
                assert(same_ci(w[3], 'I'));
                assert(same_ci(w[4], 'N'));
                assert(same_ci(w[5], 'G'));
            }
        },
        ValueType::Int => {
            lemma_kw_differs(w, "STRING"@, 0);
            lemma_kw_differs(w, "STR"@, 0);
            assert(matches_ci(w, "INT"@)) by {
                assert(same_ci(w[1], 'N'));
                assert(same_ci(w[2], 'T'));
            }
        },
        ValueType::Float => {
            lemma_kw_differs(w, "STRING"@, 0);
            lemma_kw_differs(w, "STR"@, 0);
            lemma_kw_differs(w, "INT"@, 0);
            lemma_kw_differs(w, "INTEGER"@, 0);
            assert(matches_ci(w, "FLOAT"@)) by {
                assert(same_ci(w[1], 'L'));
                assert(same_ci(w[2], 'O'));
                assert(same_ci(w[3], 'A'));
                assert(same_ci(w[4], 'T'));
            }
        },
        ValueType::Bool => {
            lemma_kw_differs(w, "STRING"@, 0);
            lemma_kw_differs(w, "STR"@, 0);
            lemma_kw_differs(w, "INT"@, 0);
            lemma_kw_differs(w, "INTEGER"@, 0);
            lemma_kw_differs(w, "FLOAT"@, 0);
            assert(matches_ci(w, "BOOL"@)) by {
                assert(same_ci(w[1], 'O'));
                assert(same_ci(w[2], 'O'));
                assert(same_ci(w[3], 'L'));
            }
        },
    }
}

/// The text, items and shape of `name: Type`.
proof fn lemma_def_group(e: (Seq<char>, ValueType))
    requires
        is_ident(e.0),
    ensures
        pieces_text(def_group(e)) == e.0 + ": "@ + type_query_name(e.1),
        group_ok(def_group(e)),
{
    reveal_strlit(": ");
    reveal_strlit("String");
    reveal_strlit("Int");
    reveal_strlit("Float");
    reveal_strlit("Bool");
    let g = def_group(e);
    lemma_push_piece(Seq::<Piece>::empty(), g[0]);
    lemma_push_piece(g.take(1), g[1]);
    lemma_push_piece(g.take(2), g[2]);
    lemma_push_piece(g.take(3), g[3]);
    assert(Seq::<Piece>::empty().push(g[0]) =~= g.take(1));
    assert(g.take(1).push(g[1]) =~= g.take(2));
    assert(g.take(2).push(g[2]) =~= g.take(3));
    assert(g.take(3).push(g[3]) =~= g);
    assert(pieces_text(Seq::<Piece>::empty()) =~= Seq::<char>::empty());
    assert(pieces_text(g) =~= e.0 + ": "@ + type_query_name(e.1));
    lemma_ident_is_word(e.0);
    let tn = type_query_name(e.1);
    assert(is_plain_word(tn)) by {
        assert forall|i: int| 0 <= i < tn.len() implies is_word_char(#[trigger] tn[i]) by {}
    }
    assert(piece_ok(g[0]));
    assert(piece_ok(g[1]));
    assert(piece_ok(g[2]));
    assert(piece_ok(g[3]));
}

/// Names of a schema.
pub open spec fn schema_names(schema: Seq<(Seq<char>, ValueType)>) -> Seq<Seq<char>> {
    schema.map_values(|e: (Seq<char>, ValueType)| e.0)
}

/// Names kept in increasing order, as a `FieldMap` keeps them, increase as a sequence.
proof fn lemma_sorted_names<A>(s: Seq<(Seq<char>, A)>)
    requires
        crate::model::field_map::names_sorted(s),
    ensures
        names_increasing(s.map_values(|e: (Seq<char>, A)| e.0)),
{
    let names = s.map_values(|e: (Seq<char>, A)| e.0);
    assert forall|i: int, j: int| 0 <= i < j < names.len() implies text_lt(#[trigger] names[i], #[trigger] names[j]) by {
        assert(text_lt(s[i].0, s[j].0));
    }
}

/// A `CREATE` that can be written and read back: named table and key, and one or more
/// fields with names. Its fields are in increasing order of name, as the schema's
/// `FieldMap` always keeps them (its type invariant).
pub open spec fn create_writable(c: CreateStView) -> bool {
    &&& is_ident(c.table_name)
    &&& is_ident(c.key_name)
    &&& c.schema.len() > 0
    &&& crate::model::field_map::names_sorted(c.schema)
    &&& forall|i: int| 0 <= i < c.schema.len() ==> is_ident(#[trigger] c.schema[i].0)
}

/// The items of a `CREATE`'s tokens.
pub open spec fn create_items(c: CreateStView) -> Seq<(TokenKind, Seq<char>)> {
    seq![(TokenKind::Word, "CREATE"@), (TokenKind::Word, c.table_name), (TokenKind::Word, "KEY"@),
        (TokenKind::Word, c.key_name), (TokenKind::Word, "FIELDS"@)] + defs_items(c.schema)
}

/// The fields of a schema in increasing order of name: their text and items.
proof fn lemma_schema_pieces(schema: Seq<(Seq<char>, ValueType)>)
    requires
        schema.len() > 0,
        names_increasing(schema_names(schema)),
        forall|i: int| 0 <= i < schema.len() ==> is_ident(#[trigger] schema[i].0),
        schema.len() <= usize::MAX,
    ensures
        pieces_text(groups_pieces(schema.map_values(|e: (Seq<char>, ValueType)| def_group(e)))) == schema_text(schema),
        items(groups_pieces(schema.map_values(|e: (Seq<char>, ValueType)| def_group(e)))) == defs_items(schema),
        group_ok(groups_pieces(schema.map_values(|e: (Seq<char>, ValueType)| def_group(e)))),
{
    let gs = schema.map_values(|e: (Seq<char>, ValueType)| def_group(e));
    lemma_groups_pieces(gs);
    lemma_defs_items(schema);
    assert forall|i: int| 0 <= i < gs.len() implies group_ok(#[trigger] gs[i]) by {
        lemma_def_group(schema[i]);
    }
    let names = schema_names(schema);
    lemma_name_order_sorted(names);
    let order = name_order(names);
    let texts = gs.map_values(|g: Seq<Piece>| pieces_text(g));
    assert(order.map_values(|i: usize| schema[i as int].0 + ": "@ + type_query_name(schema[i as int].1)) =~= texts) by {
        assert forall|i: int| 0 <= i < texts.len() implies #[trigger] texts[i] == schema[i].0 + ": "@ + type_query_name(
            schema[i].1,
        ) by {
            lemma_def_group(schema[i]);
        }
    }
}

/// The pieces of a `CREATE`.
pub open spec fn create_pieces(c: CreateStView) -> Seq<Piece> {
    seq![Piece::Word("CREATE"@), Piece::Sep(' '), Piece::Word(c.table_name)] + clause_pieces("KEY"@, c.key_name) + seq![
        Piece::Sep(' '),
        Piece::Word("FIELDS"@),
        Piece::Sep(' '),
    ] + groups_pieces(c.schema.map_values(|e: (Seq<char>, ValueType)| def_group(e)))
}

/// The text of a `CREATE` is that of its pieces, and its tokens are its items.
pub proof fn lemma_create_layout(c: CreateStView)
    requires
        create_writable(c),
        c.schema.len() <= usize::MAX,
    ensures
        layout_ok(create_pieces(c), statement_text(StatementView::Create(c)), create_items(c)),
        statement_text(StatementView::Create(c)).len() < usize::MAX ==> tokens_read(statement_text(StatementView::Create(c)), lex(statement_text(StatementView::Create(c))), create_items(c)),
{
    reveal_strlit("CREATE");
    reveal_strlit("KEY");
    reveal_strlit("FIELDS");
    reveal_strlit("CREATE ");
    reveal_strlit(" KEY ");
    reveal_strlit(" FIELDS ");
    let head = seq![Piece::Word("CREATE"@), Piece::Sep(' '), Piece::Word(c.table_name)];
    let key = clause_pieces("KEY"@, c.key_name);
    let fl = seq![Piece::Sep(' '), Piece::Word("FIELDS"@), Piece::Sep(' ')];
    let gs = c.schema.map_values(|e: (Seq<char>, ValueType)| def_group(e));
    let defs = groups_pieces(gs);
    lemma_three_pieces(head);
    lemma_three_pieces(fl);
    lemma_clause_pieces("KEY"@, c.key_name);
    lemma_sorted_names(c.schema);
    lemma_schema_pieces(c.schema);
    lemma_ident_is_word(c.table_name);
    lemma_ident_is_word(c.key_name);
    lemma_plain_keyword("CREATE"@);
    lemma_plain_keyword("KEY"@);
    lemma_plain_keyword("FIELDS"@);
    // joining
    lemma_pieces_text_concat(head, key);
    lemma_pieces_text_concat(head + key, fl);
    lemma_pieces_text_concat(head + key + fl, defs);
    lemma_items_concat(head, key);
    lemma_items_concat(head + key, fl);
    lemma_items_concat(head + key + fl, defs);
    let ps = head + key + fl + defs;
    assert(pieces_text(ps) =~= statement_text(StatementView::Create(c)));
    assert(items(ps) =~= create_items(c));
    assert(pieces_ok(head)) by {
        assert(piece_ok(head[0]));
        assert(piece_ok(head[1]));
        assert(piece_ok(head[2]));
    }
    assert(pieces_ok(fl)) by {
        assert(piece_ok(fl[0]));
        assert(piece_ok(fl[1]));
        assert(piece_ok(fl[2]));
    }
    lemma_pieces_ok_concat(head, key);
    lemma_pieces_ok_concat(head + key, fl);
    lemma_pieces_ok_concat(head + key + fl, defs);
    assert(ps == create_pieces(c));
    if statement_text(StatementView::Create(c)).len() < usize::MAX {
        lemma_read_pieces(ps);
    }
}

/// Field definitions `k..` of the schema are read, after the first `k`.
proof fn lemma_parse_defs(
    s: Seq<char>,
    t: Seq<Token>,
    its: Seq<(TokenKind, Seq<char>)>,
    q0: int,
    schema: Seq<(Seq<char>, ValueType)>,
    k: int,
)
    requires
        tokens_read(s, t, its),
        0 <= q0,
        0 <= k <= schema.len(),
        its.len() >= q0 + 3 * schema.len(),
        stops_statement(its, q0 + 3 * schema.len()),
        forall|j: int| 0 <= j < schema.len() ==> its[q0 + 3 * j] == (TokenKind::Word, (#[trigger] schema[j]).0)
            && its[q0 + 3 * j + 1] == (TokenKind::Colon, seq![':']) && its[q0 + 3 * j + 2] == (
            TokenKind::Word,
            type_query_name(schema[j].1),
        ),
        forall|i: int| 0 <= i < schema.len() ==> is_ident(#[trigger] schema[i].0),
        names_increasing(schema_names(schema)),
    ensures
        parse_defs(s, t, q0 + 3 * k, schema.take(k), None) == Ok::<(Seq<(Seq<char>, ValueType)>, Option<crate::errors::parsing_err::ParsingErrView>, int), nat>(
            (schema, None, q0 + 3 * schema.len()),
        ),
    decreases schema.len() - k,
{
    let q = q0 + 3 * k;
    if k == schema.len() {
        assert(schema.take(k) =~= schema);
        if q < its.len() {
            lemma_token_at(s, t, its, q);
            if q + 1 < its.len() {
                lemma_token_at(s, t, its, q + 1);
            }
        }
    } else {
        let e = schema[k];
        lemma_token_at(s, t, its, q);
        lemma_token_at(s, t, its, q + 1);
        lemma_token_at(s, t, its, q + 2);
        law_type_name_reads_back(s, t, q + 2, e.1);
        let acc = schema.take(k);
        assert(!has_key(acc, e.0)) by {
            if has_key(acc, e.0) {
                let i = choose|i: int| 0 <= i < acc.len() && #[trigger] acc[i].0 == e.0;
                let names = schema_names(schema);
                assert(text_lt(names[i], names[k]));
                crate::text::lemma_text_order(names[k], names[k], names[k]);
            }
        }
        assert forall|m: int| 0 <= m < acc.len() implies text_lt(#[trigger] acc[m].0, e.0) by {
            let names = schema_names(schema);
            assert(text_lt(names[m], names[k]));
        }
        crate::model::field_map::lemma_insert_by_name_last(acc, e);
        assert(acc.push(e) =~= schema.take(k + 1));
        lemma_parse_defs(s, t, its, q0, schema, k + 1);
        assert(q + 3 == q0 + 3 * (k + 1));
    }
}

/// Tokens read as a `CREATE` parse as that statement.
pub proof fn lemma_create_parse_at(s: Seq<char>, t: Seq<Token>, its: Seq<(TokenKind, Seq<char>)>, p: int, c: CreateStView)
    requires
        tokens_read(s, t, its),
        items_at(its, p, create_items(c)),
        stops_statement(its, p + create_items(c).len()),
        create_writable(c),
    ensures
        parse_statement(s, t, p) == Ok::<(Result<StatementView, ParseFailure>, int), nat>(
            (Ok(StatementView::Create(c)), p + create_items(c).len()),
        ),
{
    reveal_strlit("CREATE");
    reveal_strlit("KEY");
    reveal_strlit("FIELDS");
    let xs = create_items(c);
    lemma_defs_items(c.schema);
    let n = c.schema.len() as int;
    assert(xs.len() == 5 + 3 * n);
    lemma_token_of(s, t, its, p, xs, 0);
    lemma_token_of(s, t, its, p, xs, 1);
    lemma_token_of(s, t, its, p, xs, 2);
    lemma_token_of(s, t, its, p, xs, 3);
    lemma_token_of(s, t, its, p, xs, 4);
    lemma_token_of(s, t, its, p, xs, 5);
    lemma_token_of(s, t, its, p, xs, 6);
    lemma_kw_self("CREATE"@);
    lemma_kw_self("KEY"@);
    lemma_kw_self("FIELDS"@);
    assert(xs[5] == defs_items(c.schema)[0]);
    assert(xs[6] == defs_items(c.schema)[1]);
    assert forall|j: int| 0 <= j < c.schema.len() implies its[p + 5 + 3 * j] == (TokenKind::Word, (#[trigger] c.schema[j]).0)
        && its[p + 5 + 3 * j + 1] == (TokenKind::Colon, seq![':']) && its[p + 5 + 3 * j + 2] == (
        TokenKind::Word,
        type_query_name(c.schema[j].1),
    ) by {
        assert(its[p + (5 + 3 * j)] == xs[5 + 3 * j]);
        assert(its[p + (5 + 3 * j + 1)] == xs[5 + 3 * j + 1]);
        assert(its[p + (5 + 3 * j + 2)] == xs[5 + 3 * j + 2]);
        assert(xs[5 + 3 * j] == defs_items(c.schema)[3 * j]);
        assert(xs[5 + 3 * j + 1] == defs_items(c.schema)[3 * j + 1]);
        assert(xs[5 + 3 * j + 2] == defs_items(c.schema)[3 * j + 2]);
    }
    lemma_sorted_names(c.schema);
    lemma_parse_defs(s, t, its, p + 5, c.schema, 0);
    assert(c.schema.take(0) =~= Seq::<(Seq<char>, ValueType)>::empty());
    assert(parse_create(s, t, p + 1) == Ok::<(Result<StatementView, ParseFailure>, int), nat>(
        (Ok(StatementView::Create(c)), p + 5 + 3 * n),
    ));
}

/// Tokens read as a `CREATE` alone parse as that statement.
proof fn lemma_create_parse(s: Seq<char>, t: Seq<Token>, c: CreateStView)
    requires
        tokens_read(s, t, create_items(c)),
        create_writable(c),
    ensures
        parse_all(s, t, 0, Seq::empty(), None) == Ok::<Seq<StatementView>, ParseFailure>(
            seq![StatementView::Create(c), StatementView::NoStatement],
        ),
{
    lemma_create_parse_at(s, t, create_items(c), 0, c);
    lemma_single_statement(s, t, StatementView::Create(c));
}

/// The text of a `CREATE` that can be written (see `create_writable`) reads back as the
/// same statement.
pub proof fn law_create_reads_back(c: CreateStView)
    requires
        create_writable(c),
        c.schema.len() <= usize::MAX,
        statement_text(StatementView::Create(c)).len() < usize::MAX,
    ensures
        parse_query(statement_text(StatementView::Create(c))) == Ok::<Seq<StatementView>, ParseFailure>(
            seq![StatementView::Create(c), StatementView::NoStatement],
        ),
{
    lemma_create_layout(c);
    let s = statement_text(StatementView::Create(c));
    lemma_create_parse(s, lex(s), c);
}

/// A fractional number in its usual form: digits only, no leading zero before the point,
/// no trailing zero after it.
pub open spec fn decimal_canonical(d: DecimalView) -> bool {
    &&& all_digits(d.int_digits)
    &&& all_digits(d.frac_digits)
    &&& d.int_digits.len() == 0 || d.int_digits[0] != '0'
    &&& d.frac_digits.len() == 0 || d.frac_digits.last() != '0'
}

/// A value whose query text reads back as the same value: a string must be one word that
/// is not read as a number or a truth value; a fractional number must be in its usual form.
pub open spec fn value_writable(v: ValueView) -> bool {
    match v {
        ValueView::String(s) => is_plain_word(s) && !is_int_literal(s) && !is_float_literal(s) && !matches_ci(
            s,
            "TRUE"@,
        ) && !matches_ci(s, "FALSE"@),
        ValueView::Float(d) => decimal_canonical(d),
        _ => true,
    }
}

/// The decimal text of an integer reads back as the integer.
pub proof fn lemma_int_text(i: i64)
    ensures
        is_int_literal(int_text(i as int)),
        parse_i64_text(int_text(i as int)) == Some(i),
        is_plain_word(int_text(i as int)),
{
    if i >= 0 {
        lemma_nat_text(i as nat);
        let w = nat_text(i as nat);
        assert(is_digit(w[0]));
        assert forall|k: int| 0 <= k < w.len() implies is_word_char(#[trigger] w[k]) by {
            assert(is_digit(w[k]));
        }
    } else {
        lemma_nat_text((-i) as nat);
        let body = nat_text((-i) as nat);
        let w = seq!['-'] + body;
        assert(w.drop_first() =~= body);
        assert forall|k: int| 0 <= k < w.len() implies is_word_char(#[trigger] w[k]) by {
            if k > 0 {
                assert(w[k] == body[k - 1]);
                assert(is_digit(body[k - 1]));
            }
        }
    }
}

/// A word without `.` is not a fractional literal.
proof fn lemma_no_point(w: Seq<char>)
    requires
        forall|k: int| 0 <= k < w.len() ==> #[trigger] w[k] != '.',
    ensures
        !is_float_literal(w),
{
    let body = unsigned_part(w);
    if is_float_literal(w) {
        let d = choose|d: int| point_at(body, d);
        if w.len() > 0 && w[0] == '-' {
            assert(body[d] == w[d + 1]);
        } else {
            assert(body[d] == w[d]);
        }
    }
}

/// The query text of a fractional number in its usual form reads back as the number.
pub proof fn lemma_decimal_text(d: DecimalView)
    requires
        decimal_canonical(d),
    ensures
        !is_int_literal(decimal_query_text(d)),
        is_float_literal(decimal_query_text(d)),
        literal_decimal(decimal_query_text(d)) == d,
        is_plain_word(decimal_query_text(d)),
{
    let i = if d.int_digits.len() == 0 { seq!['0'] } else { d.int_digits };
    let f = if d.frac_digits.len() == 0 { seq!['0'] } else { d.frac_digits };
    let sign = if d.negative { seq!['-'] } else { Seq::<char>::empty() };
    let body = i + seq!['.'] + f;
    let t = decimal_query_text(d);
    assert(t =~= sign + body);
    let d0 = i.len() as int;
    assert(all_digits(i));
    assert(all_digits(f));
    assert(unsigned_part(t) =~= body) by {
        if d.negative {
            assert(t.drop_first() =~= body);
        } else {
            assert(t[0] == i[0]);
            assert(is_digit(i[0]));
        }
    }
    assert(body.take(d0) =~= i);
    assert(body.skip(d0 + 1) =~= f);
    assert(point_at(body, d0));
    assert forall|k: int| point_at(body, k) implies k == d0 by {
        if k < d0 {
            assert(body[k] == i[k]);
            assert(is_digit(i[k]));
        } else if k > d0 {
            assert(body[k] == f[k - d0 - 1]);
            assert(is_digit(f[k - d0 - 1]));
        }
    }
    let dd = choose|k: int| point_at(body, k);
    assert(dd == d0);
    assert(strip_leading_zeros(i) == d.int_digits) by {
        if d.int_digits.len() == 0 {
            assert(i.drop_first() =~= Seq::<char>::empty());
            assert(strip_leading_zeros(Seq::<char>::empty()) == Seq::<char>::empty());
            assert(i[0] == '0');
            assert(strip_leading_zeros(i) == strip_leading_zeros(i.drop_first()));
        } else {
            assert(i[0] != '0');
        }
    }
    assert(strip_trailing_zeros(f) == d.frac_digits) by {
        if d.frac_digits.len() == 0 {
            assert(f.drop_last() =~= Seq::<char>::empty());
            assert(strip_trailing_zeros(Seq::<char>::empty()) == Seq::<char>::empty());
            assert(f.last() == '0');
            assert(strip_trailing_zeros(f) == strip_trailing_zeros(f.drop_last()));
        } else {
            assert(f.last() != '0');
        }
    }
    assert(t.len() > 0 && t[0] == '-' <==> d.negative) by {
        if !d.negative {
            assert(t[0] == i[0]);
            assert(is_digit(i[0]));
        }
    }
    let lit = literal_decimal(t);
    assert(lit.negative == d.negative);
    assert(lit.int_digits == d.int_digits);
    assert(lit.frac_digits == d.frac_digits);
    // not an integer literal: the point is not a digit
    let sl = sign.len() as int;
    assert(t[sl + d0] == '.');
    assert(!all_digits(t)) by {
        assert(!is_digit(t[sl + d0]));
    }
    if t.len() > 1 && t[0] == '-' {
        assert(t.drop_first()[sl + d0 - 1] == '.');
        assert(!is_digit(t.drop_first()[sl + d0 - 1]));
    }
    assert forall|k: int| 0 <= k < t.len() implies is_word_char(#[trigger] t[k]) by {
        if k < sl {
        } else if k < sl + d0 {
            assert(t[k] == i[k - sl]);
            assert(is_digit(i[k - sl]));
        } else if k > sl + d0 {
            assert(t[k] == f[k - sl - d0 - 1]);
            assert(is_digit(f[k - sl - d0 - 1]));
        }
    }
}

/// The query text of a value that can be written reads back as the value, and is one word.
pub proof fn lemma_value_text(v: ValueView)
    requires
        value_writable(v),
    ensures
        value_of(value_query_text(v)) == Ok::<ValueView, ParsingErrView>(v),
        is_plain_word(value_query_text(v)),
{
    reveal_strlit("true");
    reveal_strlit("false");
    reveal_strlit("TRUE");
    reveal_strlit("FALSE");
    match v {
        ValueView::Int(i) => {
            lemma_int_text(i);
        },
        ValueView::Float(d) => {
            lemma_decimal_text(d);
        },
        ValueView::Bool(b) => {
            let w = value_query_text(v);
            assert(!is_digit(w[0]));
            assert(w[0] != '-');
            lemma_no_point(w);
            assert(!is_int_literal(w)) by {
                assert(!is_digit(w[0]));
            }
            if b {
                assert(matches_ci(w, "TRUE"@)) by {
                    assert(same_ci(w[0], 'T'));
                    assert(same_ci(w[1], 'R'));
                    assert(same_ci(w[2], 'U'));
                    assert(same_ci(w[3], 'E'));
                }
            } else {
                lemma_kw_differs(w, "TRUE"@, 0);
                assert(matches_ci(w, "FALSE"@)) by {
                    assert(same_ci(w[0], 'F'));
                    assert(same_ci(w[1], 'A'));
                    assert(same_ci(w[2], 'L'));
                    assert(same_ci(w[3], 'S'));
                    assert(same_ci(w[4], 'E'));
                }
            }
            assert forall|k: int| 0 <= k < w.len() implies is_word_char(#[trigger] w[k]) by {}
        },
        ValueView::String(s) => {},
    }
}

/// `name = value`
pub open spec fn assign_group(e: (Seq<char>, ValueView)) -> Seq<Piece> {
    seq![Piece::Word(e.0), Piece::Sep(' '), Piece::Equals, Piece::Sep(' '), Piece::Word(value_query_text(e.1))]
}

/// The items of `name = value` for each field.
pub open spec fn assigns_items(fields: Seq<(Seq<char>, ValueView)>) -> Seq<(TokenKind, Seq<char>)>
    decreases fields.len(),
{
    if fields.len() == 0 {
        Seq::empty()
    } else {
        assigns_items(fields.drop_last()) + seq![(TokenKind::Word, fields.last().0), (TokenKind::Equals, seq!['=']),
            (TokenKind::Word, value_query_text(fields.last().1))]
    }
}

/// Names of fields.
pub open spec fn field_names(fields: Seq<(Seq<char>, ValueView)>) -> Seq<Seq<char>> {
    fields.map_values(|e: (Seq<char>, ValueView)| e.0)
}

/// An `INSERT` that can be written and read back: a named table, and one or more fields
/// with names whose values can be written. Its fields are in increasing order of name, as
/// the fields' `FieldMap` always keeps them (its type invariant).
pub open spec fn insert_writable(i: InsertStView) -> bool {
    &&& is_ident(i.table_name)
    &&& i.fields.len() > 0
    &&& crate::model::field_map::names_sorted(i.fields)
    &&& forall|k: int| 0 <= k < i.fields.len() ==> is_ident(#[trigger] i.fields[k].0) && value_writable(i.fields[k].1)
}

/// The items of an `INSERT`'s tokens.
pub open spec fn insert_items(i: InsertStView) -> Seq<(TokenKind, Seq<char>)> {
    seq![(TokenKind::Word, "INSERT"@)] + assigns_items(i.fields) + seq![(TokenKind::Word, "INTO"@),
        (TokenKind::Word, i.table_name)]
}

/// The text, items and shape of `name = value`.
proof fn lemma_assign_group(e: (Seq<char>, ValueView))
    requires
        is_ident(e.0),
        value_writable(e.1),
    ensures
        pieces_text(assign_group(e)) == e.0 + " = "@ + value_query_text(e.1),
        items(assign_group(e)) == seq![(TokenKind::Word, e.0), (TokenKind::Equals, seq!['=']),
            (TokenKind::Word, value_query_text(e.1))],
        group_ok(assign_group(e)),
{
    reveal_strlit(" = ");
    let g = assign_group(e);
    lemma_push_piece(Seq::<Piece>::empty(), g[0]);
    lemma_push_piece(g.take(1), g[1]);
    lemma_push_piece(g.take(2), g[2]);
    lemma_push_piece(g.take(3), g[3]);
    lemma_push_piece(g.take(4), g[4]);
    assert(Seq::<Piece>::empty().push(g[0]) =~= g.take(1));
    assert(g.take(1).push(g[1]) =~= g.take(2));
    assert(g.take(2).push(g[2]) =~= g.take(3));
    assert(g.take(3).push(g[3]) =~= g.take(4));
    assert(g.take(4).push(g[4]) =~= g);
    assert(pieces_text(Seq::<Piece>::empty()) =~= Seq::<char>::empty());
    assert(items(Seq::<Piece>::empty()) =~= Seq::<(TokenKind, Seq<char>)>::empty());
    assert(pieces_text(g) =~= e.0 + " = "@ + value_query_text(e.1));
    assert(items(g) =~= seq![(TokenKind::Word, e.0), (TokenKind::Equals, seq!['=']), (TokenKind::Word, value_query_text(e.1))]);
    lemma_ident_is_word(e.0);
    lemma_value_text(e.1);
    assert(piece_ok(g[0]));
    assert(piece_ok(g[1]));
    assert(piece_ok(g[2]));
    assert(piece_ok(g[3]));
    assert(piece_ok(g[4]));
}

pub proof fn lemma_assigns_items(fields: Seq<(Seq<char>, ValueView)>)
    requires
        forall|k: int| 0 <= k < fields.len() ==> is_ident(#[trigger] fields[k].0) && value_writable(fields[k].1),
    ensures
        assigns_items(fields).len() == 3 * fields.len(),
        forall|j: int| 0 <= j < fields.len() ==> assigns_items(fields)[3 * j] == (TokenKind::Word, (#[trigger] fields[j]).0)
            && assigns_items(fields)[3 * j + 1] == (TokenKind::Equals, seq!['=']) && assigns_items(fields)[3 * j + 2] == (
            TokenKind::Word,
            value_query_text(fields[j].1),
        ),
        groups_items(fields.map_values(|e: (Seq<char>, ValueView)| assign_group(e))) == assigns_items(fields),
    decreases fields.len(),
{
    if fields.len() > 0 {
        let init = fields.drop_last();
        assert forall|k: int| 0 <= k < init.len() implies is_ident(#[trigger] init[k].0) && value_writable(init[k].1) by {
            assert(init[k] == fields[k]);
        }
        lemma_assigns_items(init);
        let e = fields.last();
        assert(e == fields[fields.len() - 1]);
        lemma_assign_group(e);
        let gs = fields.map_values(|e: (Seq<char>, ValueView)| assign_group(e));
        assert(gs.drop_last() =~= init.map_values(|e: (Seq<char>, ValueView)| assign_group(e)));
        let a = assigns_items(fields);
        assert forall|j: int| 0 <= j < fields.len() implies a[3 * j] == (TokenKind::Word, (#[trigger] fields[j]).0)
            && a[3 * j + 1] == (TokenKind::Equals, seq!['=']) && a[3 * j + 2] == (TokenKind::Word, value_query_text(fields[j].1)) by {
            if j < init.len() {
                assert(init[j] == fields[j]);
            }
        }
    }
}

/// The fields in increasing order of name: their text and items.
proof fn lemma_fields_pieces(fields: Seq<(Seq<char>, ValueView)>)
    requires
        fields.len() > 0,
        names_increasing(field_names(fields)),
        forall|k: int| 0 <= k < fields.len() ==> is_ident(#[trigger] fields[k].0) && value_writable(fields[k].1),
        fields.len() <= usize::MAX,
    ensures
        pieces_text(groups_pieces(fields.map_values(|e: (Seq<char>, ValueView)| assign_group(e)))) == assignments_text(fields),
        items(groups_pieces(fields.map_values(|e: (Seq<char>, ValueView)| assign_group(e)))) == assigns_items(fields),
        group_ok(groups_pieces(fields.map_values(|e: (Seq<char>, ValueView)| assign_group(e)))),
{
    let gs = fields.map_values(|e: (Seq<char>, ValueView)| assign_group(e));
    lemma_groups_pieces(gs);
    lemma_assigns_items(fields);
    assert forall|i: int| 0 <= i < gs.len() implies group_ok(#[trigger] gs[i]) by {
        lemma_assign_group(fields[i]);
    }
    let names = field_names(fields);
    lemma_name_order_sorted(names);
    let order = name_order(names);
    let texts = gs.map_values(|g: Seq<Piece>| pieces_text(g));
    assert(order.map_values(|i: usize| fields[i as int].0 + " = "@ + value_query_text(fields[i as int].1)) =~= texts) by {
        assert forall|i: int| 0 <= i < texts.len() implies #[trigger] texts[i] == fields[i].0 + " = "@ + value_query_text(
            fields[i].1,
        ) by {
            lemma_assign_group(fields[i]);
        }
    }
}

/// The pieces of an `INSERT`.
pub open spec fn insert_pieces(i: InsertStView) -> Seq<Piece> {
    seq![Piece::Word("INSERT"@), Piece::Sep(' ')] + groups_pieces(i.fields.map_values(|e: (Seq<char>, ValueView)| assign_group(e)))
        + clause_pieces("INTO"@, i.table_name)
}

/// The text of an `INSERT` is that of its pieces, and its tokens are its items.
pub proof fn lemma_insert_layout(i: InsertStView)
    requires
        insert_writable(i),
        i.fields.len() <= usize::MAX,
    ensures
        layout_ok(insert_pieces(i), statement_text(StatementView::Insert(i)), insert_items(i)),
        statement_text(StatementView::Insert(i)).len() < usize::MAX ==> tokens_read(statement_text(StatementView::Insert(i)), lex(statement_text(StatementView::Insert(i))), insert_items(i)),
{
    reveal_strlit("INSERT");
    reveal_strlit("INTO");
    reveal_strlit("INSERT ");
    reveal_strlit(" INTO ");
    let head = seq![Piece::Word("INSERT"@), Piece::Sep(' ')];
    let gs = i.fields.map_values(|e: (Seq<char>, ValueView)| assign_group(e));
    let body = groups_pieces(gs);
    let tail = clause_pieces("INTO"@, i.table_name);
    lemma_push_piece(Seq::<Piece>::empty(), head[0]);
    lemma_push_piece(seq![head[0]], head[1]);
    assert(Seq::<Piece>::empty().push(head[0]) =~= seq![head[0]]);
    assert(seq![head[0]].push(head[1]) =~= head);
    assert(pieces_text(Seq::<Piece>::empty()) =~= Seq::<char>::empty());
    assert(items(Seq::<Piece>::empty()) =~= Seq::<(TokenKind, Seq<char>)>::empty());
    assert(pieces_text(head) =~= "INSERT "@);
    assert(items(head) =~= seq![(TokenKind::Word, "INSERT"@)]);
    lemma_sorted_names(i.fields);
    lemma_fields_pieces(i.fields);
    lemma_clause_pieces("INTO"@, i.table_name);
    lemma_ident_is_word(i.table_name);
    lemma_plain_keyword("INSERT"@);
    lemma_plain_keyword("INTO"@);
    lemma_pieces_text_concat(head, body);
    lemma_pieces_text_concat(head + body, tail);
    lemma_items_concat(head, body);
    lemma_items_concat(head + body, tail);
    let ps = head + body + tail;
    assert(pieces_text(ps) =~= statement_text(StatementView::Insert(i)));
    assert(items(ps) =~= insert_items(i));
    assert(pieces_ok(head)) by {
        assert(piece_ok(head[0]));
        assert(piece_ok(head[1]));
    }
    lemma_pieces_ok_concat(head, body);
    lemma_pieces_ok_concat(head + body, tail);
    assert(ps == insert_pieces(i));
    if statement_text(StatementView::Insert(i)).len() < usize::MAX {
        lemma_read_pieces(ps);
    }
}

/// Assignments `k..` of the fields are read, after the first `k`.
proof fn lemma_parse_assigns(
    s: Seq<char>,
    t: Seq<Token>,
    its: Seq<(TokenKind, Seq<char>)>,
    q0: int,
    fields: Seq<(Seq<char>, ValueView)>,
    k: int,
)
    requires
        tokens_read(s, t, its),
        0 <= q0,
        0 <= k <= fields.len(),
        its.len() >= q0 + 3 * fields.len() + 2,
        forall|j: int| 0 <= j < fields.len() ==> its[q0 + 3 * j] == (TokenKind::Word, (#[trigger] fields[j]).0)
            && its[q0 + 3 * j + 1] == (TokenKind::Equals, seq!['=']) && its[q0 + 3 * j + 2] == (
            TokenKind::Word,
            value_query_text(fields[j].1),
        ),
        its[q0 + 3 * fields.len() + 1].0 == TokenKind::Word,
        forall|i: int| 0 <= i < fields.len() ==> is_ident(#[trigger] fields[i].0) && value_writable(fields[i].1),
        names_increasing(field_names(fields)),
    ensures
        parse_assigns(s, t, q0 + 3 * k, fields.take(k), None) == Ok::<(Seq<(Seq<char>, ValueView)>, Option<ParsingErrView>, int), nat>(
            (fields, None, q0 + 3 * fields.len()),
        ),
    decreases fields.len() - k,
{
    let q = q0 + 3 * k;
    if k == fields.len() {
        assert(fields.take(k) =~= fields);
        lemma_token_at(s, t, its, q + 1);
    } else {
        let e = fields[k];
        lemma_token_at(s, t, its, q);
        lemma_token_at(s, t, its, q + 1);
        lemma_token_at(s, t, its, q + 2);
        lemma_value_text(e.1);
        let acc = fields.take(k);
        assert(!has_key(acc, e.0)) by {
            if has_key(acc, e.0) {
                let i = choose|i: int| 0 <= i < acc.len() && #[trigger] acc[i].0 == e.0;
                let names = field_names(fields);
                assert(text_lt(names[i], names[k]));
                crate::text::lemma_text_order(names[k], names[k], names[k]);
            }
        }
        assert forall|m: int| 0 <= m < acc.len() implies text_lt(#[trigger] acc[m].0, e.0) by {
            let names = field_names(fields);
            assert(text_lt(names[m], names[k]));
        }
        crate::model::field_map::lemma_insert_by_name_last(acc, e);
        assert(acc.push(e) =~= fields.take(k + 1));
        lemma_parse_assigns(s, t, its, q0, fields, k + 1);
        assert(q + 3 == q0 + 3 * (k + 1));
    }
}

/// Tokens read as an `INSERT` parse as that statement.
pub proof fn lemma_insert_parse_at(s: Seq<char>, t: Seq<Token>, its: Seq<(TokenKind, Seq<char>)>, p: int, i: InsertStView)
    requires
        tokens_read(s, t, its),
        items_at(its, p, insert_items(i)),
        insert_writable(i),
    ensures
        parse_statement(s, t, p) == Ok::<(Result<StatementView, ParseFailure>, int), nat>(
            (Ok(StatementView::Insert(i)), p + insert_items(i).len()),
        ),
{
    reveal_strlit("INSERT");
    reveal_strlit("INTO");
    reveal_strlit("CREATE");
    reveal_strlit("C");
    let xs = insert_items(i);
    lemma_assigns_items(i.fields);
    let n = i.fields.len() as int;
    assert(xs.len() == 3 + 3 * n);
    lemma_token_of(s, t, its, p, xs, 0);
    lemma_token_of(s, t, its, p, xs, 1);
    lemma_token_of(s, t, its, p, xs, 2);
    lemma_kw_differs("INSERT"@, "CREATE"@, 0);
    lemma_kw_differs("INSERT"@, "C"@, 0);
    lemma_kw_self("INSERT"@);
    lemma_kw_self("INTO"@);
    assert(xs[1] == assigns_items(i.fields)[0]);
    assert(xs[2] == assigns_items(i.fields)[1]);
    assert(xs[1 + 3 * n] == (TokenKind::Word, "INTO"@));
    assert(xs[2 + 3 * n] == (TokenKind::Word, i.table_name));
    assert(its[p + 1 + 3 * n + 1] == xs[2 + 3 * n]);
    assert forall|j: int| 0 <= j < i.fields.len() implies its[p + 1 + 3 * j] == (TokenKind::Word, (#[trigger] i.fields[j]).0)
        && its[p + 1 + 3 * j + 1] == (TokenKind::Equals, seq!['=']) && its[p + 1 + 3 * j + 2] == (
        TokenKind::Word,
        value_query_text(i.fields[j].1),
    ) by {
        assert(its[p + (1 + 3 * j)] == xs[1 + 3 * j]);
        assert(its[p + (1 + 3 * j + 1)] == xs[1 + 3 * j + 1]);
        assert(its[p + (1 + 3 * j + 2)] == xs[1 + 3 * j + 2]);
        assert(xs[1 + 3 * j] == assigns_items(i.fields)[3 * j]);
        assert(xs[1 + 3 * j + 1] == assigns_items(i.fields)[3 * j + 1]);
        assert(xs[1 + 3 * j + 2] == assigns_items(i.fields)[3 * j + 2]);
    }
    lemma_sorted_names(i.fields);
    lemma_parse_assigns(s, t, its, p + 1, i.fields, 0);
    assert(i.fields.take(0) =~= Seq::<(Seq<char>, ValueView)>::empty());
    lemma_token_of(s, t, its, p, xs, 1 + 3 * n);
    lemma_token_of(s, t, its, p, xs, 2 + 3 * n);
    assert(parse_insert(s, t, p + 1) == Ok::<(Result<StatementView, ParseFailure>, int), nat>(
        (Ok(StatementView::Insert(i)), p + 3 + 3 * n),
    ));
}

/// Tokens read as an `INSERT` alone parse as that statement.
proof fn lemma_insert_parse(s: Seq<char>, t: Seq<Token>, i: InsertStView)
    requires
        tokens_read(s, t, insert_items(i)),
        insert_writable(i),
    ensures
        parse_all(s, t, 0, Seq::empty(), None) == Ok::<Seq<StatementView>, ParseFailure>(
            seq![StatementView::Insert(i), StatementView::NoStatement],
        ),
{
    lemma_insert_parse_at(s, t, insert_items(i), 0, i);
    lemma_single_statement(s, t, StatementView::Insert(i));
}

/// The text of an `INSERT` that can be written (see `insert_writable`) reads back as the
/// same statement.
pub proof fn law_insert_reads_back(i: InsertStView)
    requires
        insert_writable(i),
        i.fields.len() <= usize::MAX,
        statement_text(StatementView::Insert(i)).len() < usize::MAX,
    ensures
        parse_query(statement_text(StatementView::Insert(i))) == Ok::<Seq<StatementView>, ParseFailure>(
            seq![StatementView::Insert(i), StatementView::NoStatement],
        ),
{
    lemma_insert_layout(i);
    let s = statement_text(StatementView::Insert(i));
    lemma_insert_parse(s, lex(s), i);
}

/// A statement whose query text can be read back (the conditions of each kind above).
pub open spec fn statement_writable(st: StatementView) -> bool {
    match st {
        StatementView::NoStatement => false,
        StatementView::Create(c) => create_writable(c),
        StatementView::Insert(i) => insert_writable(i),
        StatementView::Delete(d) => is_plain_word(d.key) && is_ident(d.table_name),
        StatementView::Read(p) => is_plain_word(p),
        StatementView::Save(p) => is_plain_word(p),
        StatementView::Select(s) => select_writable(s),
    }
}

/// A statement whose names are single words and whose values can be written: what
/// `statement_writable` asks but the order of fields, which a `FieldMap` always keeps.
pub open spec fn statement_words(st: StatementView) -> bool {
    match st {
        StatementView::Create(c) => {
            &&& is_ident(c.table_name)
            &&& is_ident(c.key_name)
            &&& c.schema.len() > 0
            &&& forall|i: int| 0 <= i < c.schema.len() ==> is_ident(#[trigger] c.schema[i].0)
        },
        StatementView::Insert(i) => {
            &&& is_ident(i.table_name)
            &&& i.fields.len() > 0
            &&& forall|k: int| 0 <= k < i.fields.len() ==> is_ident(#[trigger] i.fields[k].0) && value_writable(
                i.fields[k].1,
            )
        },
        _ => statement_writable(st),
    }
}

/// Saving and reading back: the query text of a statement (what `to_query` gives and
/// `SAVE_AS` writes) reads back as that same statement, followed by the end of the
/// query, for every statement whose names and values can be written.
pub proof fn law_statement_reads_back(st: StatementView)
    requires
        statement_writable(st),
        statement_text(st).len() < usize::MAX,
        st matches StatementView::Create(c) ==> c.schema.len() <= usize::MAX,
        st matches StatementView::Insert(i) ==> i.fields.len() <= usize::MAX,
    ensures
        parse_query(statement_text(st)) == Ok::<Seq<StatementView>, ParseFailure>(seq![st, StatementView::NoStatement]),
{
    match st {
        StatementView::NoStatement => {},
        StatementView::Create(c) => law_create_reads_back(c),
        StatementView::Insert(i) => law_insert_reads_back(i),
        StatementView::Delete(d) => law_delete_reads_back(d),
        StatementView::Read(p) => law_read_reads_back(p),
        StatementView::Save(p) => law_save_reads_back(p),
        StatementView::Select(s) => law_select_reads_back(s),
    }
}

/// Text stability: reading back a statement's query text and writing the result again
/// gives the same text.
pub proof fn law_text_stable(st: StatementView)
    requires
        statement_writable(st),
        statement_text(st).len() < usize::MAX,
        st matches StatementView::Create(c) ==> c.schema.len() <= usize::MAX,
        st matches StatementView::Insert(i) ==> i.fields.len() <= usize::MAX,
    ensures
        parse_query(statement_text(st)) matches Ok(v) && v.len() == 2 && statement_text(v[0]) == statement_text(st)
            && v[1] is NoStatement,
{
    law_statement_reads_back(st);
}

} // verus!
