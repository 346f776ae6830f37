//! What reading a query gives, stated over the tokens read.
use vstd::prelude::*;
use crate::parsing::grammar::{parse_mods, kw_at, text_at, is_word_at, matches_ci};
use crate::parsing::lexer::Token;
use crate::errors::parsing_err::ParsingErrView;
use crate::text::digits_val;

verus! {

/// The modifier keyword at `k` of `s` read as `t`: `LIMIT` and `ORDER_BY` are never both.
proof fn lemma_modifier_kinds(s: Seq<char>, t: Seq<Token>, k: int)
    ensures
        !(kw_at(s, t, k, "LIMIT"@) && kw_at(s, t, k, "ORDER_BY"@)),
{
    reveal_strlit("LIMIT");
    reveal_strlit("ORDER_BY");
}

/// Modifiers are read in any order: where no reading error is found, every `LIMIT n`
/// read gives the limit `n`, and every `ORDER_BY f` read gives the field `f`, whichever
/// comes first; a limit or field given before is kept.
pub proof fn law_modifiers_in_any_order(
    s: Seq<char>,
    t: Seq<Token>,
    q: int,
    limit: Option<u64>,
    ob: Option<Seq<char>>,
    sem: Option<ParsingErrView>,
)
    ensures
        parse_mods(s, t, q, limit, ob, sem) matches Ok((l2, ob2, sem2, r)) ==> {
            &&& (sem is Some ==> sem2 is Some)
            &&& sem2 is None ==> {
                &&& (limit is Some ==> l2 == limit)
                &&& (ob is Some ==> ob2 == ob)
                &&& forall|k: int|
                    q <= k < r && (k - q) % 2 == 0 && #[trigger] kw_at(s, t, k, "LIMIT"@) ==> l2 == Some(
                        digits_val(text_at(s, t, k + 1)) as u64,
                    ) && digits_val(text_at(s, t, k + 1)) <= u64::MAX
                &&& forall|k: int|
                    q <= k < r && (k - q) % 2 == 0 && #[trigger] kw_at(s, t, k, "ORDER_BY"@) ==> ob2 == Some(
                        text_at(s, t, k + 1),
                    )
            }
        },
    decreases t.len() - q,
{
    lemma_modifier_kinds(s, t, q);
    if 0 <= q && kw_at(s, t, q, "LIMIT"@) {
        if is_word_at(t, q + 1) && text_at(s, t, q + 1).len() > 0 && crate::text::all_digits(text_at(s, t, q + 1)) {
            let w = text_at(s, t, q + 1);
            if digits_val(w) > u64::MAX {
                law_modifiers_in_any_order(s, t, q + 2, limit, ob, crate::parsing::grammar::first_err(sem, ParsingErrView::ParsingFromString(w, crate::model::table::ValueType::Int)));
            } else if limit is Some {
                law_modifiers_in_any_order(s, t, q + 2, limit, ob, crate::parsing::grammar::first_err(sem, ParsingErrView::RepeatedModifier));
            } else {
                law_modifiers_in_any_order(s, t, q + 2, Some(digits_val(w) as u64), ob, sem);
            }
        }
    } else if 0 <= q && kw_at(s, t, q, "ORDER_BY"@) {
        if crate::parsing::grammar::ident_at(s, t, q + 1) {
            if ob is Some {
                law_modifiers_in_any_order(s, t, q + 2, limit, ob, crate::parsing::grammar::first_err(sem, ParsingErrView::RepeatedModifier));
            } else {
                law_modifiers_in_any_order(s, t, q + 2, limit, Some(text_at(s, t, q + 1)), sem);
            }
        }
    }
}

} // verus!
