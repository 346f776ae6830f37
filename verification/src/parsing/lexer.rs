//! Splits a query into words and the punctuation `:` and `=`.
//!
//! Spaces, tabs, line breaks and commas separate words; they are otherwise ignored.
use vstd::prelude::*;

verus! {

/// Characters that separate words.
pub open spec fn is_sep(c: char) -> bool {
    c == ' ' || c == '\t' || c == '\n' || c == '\r' || c == ','
}

/// Characters that stand alone as tokens.
pub open spec fn is_punct(c: char) -> bool {
    c == ':' || c == '='
}

pub open spec fn is_word_char(c: char) -> bool {
    !is_sep(c) && !is_punct(c)
}

#[derive(Debug, Clone, Copy, PartialEq, Eq, Structural)]
pub enum TokenKind {
    Word,
    Colon,
    Equals,
}

/// A token: its kind and the characters `start..end` of the query it covers.
#[derive(Debug, Clone, Copy, PartialEq, Eq, Structural)]
pub struct Token {
    pub kind: TokenKind,
    pub start: usize,
    pub end: usize,
}

/// Where the word starting at `i` ends.
pub open spec fn word_end(s: Seq<char>, i: int) -> int
    decreases s.len() - i,
{
    if 0 <= i < s.len() && is_word_char(s[i]) {
        word_end(s, i + 1)
    } else {
        i
    }
}

/// The tokens of `s` from position `i` on.
pub open spec fn lex_from(s: Seq<char>, i: int) -> Seq<Token>
    decreases s.len() - i,
{
    if i < 0 || i >= s.len() {
        Seq::empty()
    } else if is_sep(s[i]) {
        lex_from(s, i + 1)
    } else if s[i] == ':' {
        seq![Token { kind: TokenKind::Colon, start: i as usize, end: (i + 1) as usize }] + lex_from(s, i + 1)
    } else if s[i] == '=' {
        seq![Token { kind: TokenKind::Equals, start: i as usize, end: (i + 1) as usize }] + lex_from(s, i + 1)
    } else {
        let e = word_end(s, i);
        if e <= i || e > s.len() {
            Seq::empty()
        } else {
            seq![Token { kind: TokenKind::Word, start: i as usize, end: e as usize }] + lex_from(s, e)
        }
    }
}

/// The tokens of `s`.
pub open spec fn lex(s: Seq<char>) -> Seq<Token> {
    lex_from(s, 0)
}

pub proof fn lemma_word_end(s: Seq<char>, i: int)
    requires
        0 <= i <= s.len(),
    ensures
        i <= word_end(s, i) <= s.len(),
        forall|j: int| i <= j < word_end(s, i) ==> is_word_char(#[trigger] s[j]),
        word_end(s, i) < s.len() ==> !is_word_char(s[word_end(s, i)]),
    decreases s.len() - i,
{
    if i < s.len() && is_word_char(s[i]) {
        lemma_word_end(s, i + 1);
    }
}

/// Tokens lie within the text, in order, words over word characters.
pub open spec fn tokens_wf(s: Seq<char>, t: Seq<Token>) -> bool {
    forall|k: int| 0 <= k < t.len() ==> #[trigger] t[k].start < t[k].end <= s.len()
}

pub proof fn lemma_lex_wf(s: Seq<char>, i: int)
    requires
        0 <= i,
        s.len() < usize::MAX,
    ensures
        tokens_wf(s, lex_from(s, i)),
        forall|k: int| 0 <= k < lex_from(s, i).len() ==> i <= #[trigger] lex_from(s, i)[k].start,
        i <= s.len() ==> lex_from(s, i).len() <= s.len() - i,
    decreases s.len() - i,
{
    let r = lex_from(s, i);
    if i >= s.len() {
        assert(r.len() == 0);
    } else if is_sep(s[i]) {
        lemma_lex_wf(s, i + 1);
        assert(r == lex_from(s, i + 1));
        assert(tokens_wf(s, r));
    } else if s[i] == ':' || s[i] == '=' {
        lemma_lex_wf(s, i + 1);
        let rest = lex_from(s, i + 1);
        let kind = if s[i] == ':' { TokenKind::Colon } else { TokenKind::Equals };
        let tk = Token { kind, start: i as usize, end: (i + 1) as usize };
        assert(r == seq![tk] + rest);
        assert(r[0] == tk);
        assert(r.len() == rest.len() + 1);
        assert forall|k: int| 0 <= k < r.len() implies #[trigger] r[k].start < r[k].end <= s.len() && i <= r[k].start by {
            if k > 0 {
                assert(r[k] == rest[k - 1]);
            }
        }
        assert(tokens_wf(s, r));
    } else {
        lemma_word_end(s, i);
        lemma_word_end(s, i + 1);
        let e = word_end(s, i);
        assert(e == word_end(s, i + 1));
        assert(e > i);
        lemma_lex_wf(s, e);
        let rest = lex_from(s, e);
        let tk = Token { kind: TokenKind::Word, start: i as usize, end: e as usize };
        assert(r == seq![tk] + rest);
        assert(r[0] == tk);
        assert(tk.start == i && tk.end == e);
        assert forall|k: int| 0 <= k < r.len() implies #[trigger] r[k].start < r[k].end <= s.len() && i <= r[k].start by {
            if k > 0 {
                assert(r[k] == rest[k - 1]);
            }
        }
        assert(tokens_wf(s, r));
    }
}

/// The tokens of the characters `v`.
pub fn tokenize(v: &Vec<char>) -> (r: Vec<Token>)
    requires
        v@.len() < usize::MAX,
    ensures
        r@ == lex(v@),
        tokens_wf(v@, r@),
        r@.len() <= v@.len(),
{
    let mut toks: Vec<Token> = Vec::new();
    let mut i: usize = 0;
    let n = v.len();
    proof {
        lemma_lex_wf(v@, 0);
    }
    while i < n
        invariant
            n == v@.len(),
            n < usize::MAX,
            i <= n,
            toks@ + lex_from(v@, i as int) == lex(v@),
        decreases n - i,
    {
        let c = v[i];
        if c == ' ' || c == '\t' || c == '\n' || c == '\r' || c == ',' {
            i = i + 1;
        } else if c == ':' {
            let ghost before = toks@;
            toks.push(Token { kind: TokenKind::Colon, start: i, end: i + 1 });
            assert(toks@ + lex_from(v@, i + 1) =~= before + lex_from(v@, i as int));
            i = i + 1;
        } else if c == '=' {
            let ghost before = toks@;
            toks.push(Token { kind: TokenKind::Equals, start: i, end: i + 1 });
            assert(toks@ + lex_from(v@, i + 1) =~= before + lex_from(v@, i as int));
            i = i + 1;
        } else {
            let mut e = i;
            while e < n && !(v[e] == ' ' || v[e] == '\t' || v[e] == '\n' || v[e] == '\r' || v[e] == ','
                || v[e] == ':' || v[e] == '=')
                invariant
                    i <= e <= n,
                    n == v@.len(),
                    word_end(v@, i as int) == word_end(v@, e as int),
                decreases n - e,
            {
                e = e + 1;
            }
            proof {
                lemma_word_end(v@, i as int);
            }
            let ghost before = toks@;
            toks.push(Token { kind: TokenKind::Word, start: i, end: e });
            assert(toks@ + lex_from(v@, e as int) =~= before + lex_from(v@, i as int));
            i = e;
        }
    }
    proof {
        assert(toks@ =~= lex(v@));
        lemma_lex_wf(v@, 0);
    }
    toks
}

} // verus!
