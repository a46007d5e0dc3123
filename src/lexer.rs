use vstd::prelude::*;
use crate::error::{DefError, ErrorKind};

verus! {

/// The punctuation of the definition language.
#[derive(Clone, Copy, Debug, PartialEq, Eq, Structural)]
pub enum Punct {
    OpenBracket,
    CloseBracket,
    OpenBrace,
    CloseBrace,
    Comma,
    EqEq,
    Arrow,
}

/// A token as the specifications see it.
pub enum Lexeme {
    Word(Seq<char>),
    Mark(Punct),
}

/// A token with its character offset.
pub struct Spanned {
    pub lex: Lexeme,
    pub pos: int,
}

#[derive(Clone, Debug)]
pub enum Tok {
    Ident(String),
    Mark(Punct),
}

/// One token of a definition and the character offset where it starts.
#[derive(Clone, Debug)]
pub struct Token {
    pub tok: Tok,
    pub pos: usize,
}

impl View for Token {
    type V = Spanned;

    open spec fn view(&self) -> Spanned {
        Spanned {
            lex: match self.tok {
                Tok::Ident(w) => Lexeme::Word(w@),
                Tok::Mark(p) => Lexeme::Mark(p),
            },
            pos: self.pos as int,
        }
    }
}

pub open spec fn is_space(c: char) -> bool {
    c == ' ' || c == '\t' || c == '\n' || c == '\r'
}

pub open spec fn is_ident_start(c: char) -> bool {
    ('a' <= c && c <= 'z') || ('A' <= c && c <= 'Z') || c == '_'
}

pub open spec fn is_ident_char(c: char) -> bool {
    is_ident_start(c) || ('0' <= c && c <= '9')
}

pub open spec fn punct_text(p: Punct) -> Seq<char> {
    match p {
        Punct::OpenBracket => seq!['['],
        Punct::CloseBracket => seq![']'],
        Punct::OpenBrace => seq!['{'],
        Punct::CloseBrace => seq!['}'],
        Punct::Comma => seq![','],
        Punct::EqEq => seq!['=', '='],
        Punct::Arrow => seq!['=', '>'],
    }
}

pub open spec fn is_word(w: Seq<char>) -> bool {
    &&& w.len() > 0
    &&& is_ident_start(w[0])
    &&& forall|j: int| 0 <= j < w.len() ==> is_ident_char(#[trigger] w[j])
}

pub open spec fn lexeme_text(l: Lexeme) -> Seq<char> {
    match l {
        Lexeme::Word(w) => w,
        Lexeme::Mark(p) => punct_text(p),
    }
}

pub open spec fn token_end(t: Spanned) -> int {
    t.pos + lexeme_text(t.lex).len()
}

/// `t` stands in `s` where it says: a word is a whole identifier, not the start of a longer one.
pub open spec fn token_at(s: Seq<char>, t: Spanned) -> bool {
    &&& 0 <= t.pos
    &&& token_end(t) <= s.len()
    &&& s.subrange(t.pos, token_end(t)) == lexeme_text(t.lex)
    &&& match t.lex {
        Lexeme::Word(w) => is_word(w) && (token_end(t) == s.len() || !is_ident_char(
            s[token_end(t)],
        )),
        Lexeme::Mark(_) => true,
    }
}

pub open spec fn blank(s: Seq<char>, from: int, to: int) -> bool {
    forall|j: int| from <= j < to ==> is_space(#[trigger] s[j])
}

pub open spec fn next_start(ts: Seq<Token>, k: int, limit: int) -> int {
    if k + 1 < ts.len() {
        ts[k + 1]@.pos
    } else {
        limit
    }
}

/// `ts` are the tokens of `s` up to offset `limit`, in order, with only white space between them.
#[verifier::opaque]
pub open spec fn tokenizes_upto(s: Seq<char>, ts: Seq<Token>, limit: int) -> bool {
    &&& forall|k: int| 0 <= k < ts.len() ==> token_at(s, #[trigger] ts[k]@)
    &&& forall|k: int|
        0 <= k < ts.len() ==> token_end(#[trigger] ts[k]@) <= next_start(ts, k, limit)
    &&& blank(s, 0, next_start(ts, -1, limit))
    &&& forall|k: int|
        0 <= k < ts.len() ==> blank(s, token_end(#[trigger] ts[k]@), next_start(ts, k, limit))
}

/// `ts` are the tokens of the whole text `s`.
pub open spec fn tokenizes(s: Seq<char>, ts: Seq<Token>) -> bool {
    tokenizes_upto(s, ts, s.len() as int)
}

/// Some token starts at offset `i` of `s`.
pub open spec fn starts_token(s: Seq<char>, i: int) -> bool {
    ||| is_ident_start(s[i])
    ||| s[i] == '[' || s[i] == ']' || s[i] == '{' || s[i] == '}' || s[i] == ','
    ||| (s[i] == '=' && i + 1 < s.len() && (s[i + 1] == '=' || s[i + 1] == '>'))
}

proof fn lemma_skip_space(s: Seq<char>, ts: Seq<Token>, i: int)
    requires
        tokenizes_upto(s, ts, i),
        0 <= i < s.len(),
        is_space(s[i]),
    ensures
        tokenizes_upto(s, ts, i + 1),
{
    reveal(tokenizes_upto);
    if ts.len() > 0 {
        assert(blank(s, token_end(ts.last()@), i));
    }
}

proof fn lemma_push_token(s: Seq<char>, ts: Seq<Token>, start: int, t: Token, i: int)
    requires
        tokenizes_upto(s, ts, start),
        token_at(s, t@),
        t@.pos == start,
        token_end(t@) == i,
    ensures
        tokenizes_upto(s, ts.push(t), i),
{
    reveal(tokenizes_upto);
    let now = ts.push(t);
    if ts.len() > 0 {
        assert(blank(s, token_end(ts.last()@), start));
    }
    assert(forall|k: int| 0 <= k < ts.len() ==> #[trigger] now[k] == ts[k]);
    assert forall|k: int| 0 <= k < now.len() implies token_at(s, #[trigger] now[k]@) by {
        if k < ts.len() {
            assert(now[k] == ts[k]);
        }
    }
    assert forall|k: int| 0 <= k < now.len() implies token_end(#[trigger] now[k]@) <= next_start(
        now,
        k,
        i,
    ) && blank(s, token_end(now[k]@), next_start(now, k, i)) by {
        if k + 1 < ts.len() {
            assert(next_start(now, k, i) == next_start(ts, k, start));
        }
    }
}

fn space_char(c: char) -> (r: bool)
    ensures
        r == is_space(c),
{
    c == ' ' || c == '\t' || c == '\n' || c == '\r'
}

fn ident_start_char(c: char) -> (r: bool)
    ensures
        r == is_ident_start(c),
{
    ('a' <= c && c <= 'z') || ('A' <= c && c <= 'Z') || c == '_'
}

fn ident_char(c: char) -> (r: bool)
    ensures
        r == is_ident_char(c),
{
    ident_start_char(c) || ('0' <= c && c <= '9')
}

fn chars_of(text: &str) -> (r: Vec<char>)
    ensures
        r@ == text@,
{
    let n = text.unicode_len();
    let mut out: Vec<char> = Vec::new();
    let mut i: usize = 0;
    while i < n
        invariant
            n == text@.len(),
            i <= n,
            out@ == text@.subrange(0, i as int),
        decreases n - i,
    {
        out.push(text.get_char(i));
        i += 1;
    }
    out
}

fn single_mark(c: char) -> (r: Option<Punct>)
    ensures
        r matches Some(p) ==> punct_text(p) == seq![c],
        r is None <==> !(c == '[' || c == ']' || c == '{' || c == '}' || c == ','),
{
    if c == '[' {
        Some(Punct::OpenBracket)
    } else if c == ']' {
        Some(Punct::CloseBracket)
    } else if c == '{' {
        Some(Punct::OpenBrace)
    } else if c == '}' {
        Some(Punct::CloseBrace)
    } else if c == ',' {
        Some(Punct::Comma)
    } else {
        None
    }
}

/// Splits a definition into tokens. White space separates tokens and is dropped.
/// Fails at the first character that is neither white space nor the start of a token.
pub fn tokenize(text: &str) -> (r: Result<Vec<Token>, DefError>)
    ensures
        match r {
            Ok(ts) => tokenizes(text@, ts@),
            Err(e) => {
                &&& e.kind == ErrorKind::UnexpectedChar
                &&& forall|ts: Seq<Token>| !tokenizes(text@, ts)
                &&& exists|ts: Seq<Token>| #[trigger] tokenizes_upto(text@, ts, e.pos as int)
                &&& e.pos < text@.len()
                &&& !is_space(text@[e.pos as int])
                &&& !starts_token(text@, e.pos as int)
            },
        },
{
    let chars = chars_of(text);
    let ghost s = text@;
    proof {
        reveal(tokenizes_upto);
    }
    let n = chars.len();
    let mut toks: Vec<Token> = Vec::new();
    let mut i: usize = 0;
    while i < n
        invariant
            chars@ == s,
            s == text@,
            n == s.len(),
            i <= n,
            tokenizes_upto(s, toks@, i as int),
        decreases n - i,
    {
        let c = chars[i];
        let ghost before = toks@;
        if space_char(c) {
            i += 1;
            proof {
                lemma_skip_space(s, toks@, (i - 1) as int);
            }
        } else {
            let start = i;
            let tok: Tok;
            if ident_start_char(c) {
                i += 1;
                while i < n && ident_char(chars[i])
                    invariant
                        chars@ == s,
                        s == text@,
                        n == s.len(),
                        start < i <= n,
                        is_ident_start(s[start as int]),
                        forall|j: int| start <= j < i ==> is_ident_char(#[trigger] s[j]),
                    decreases n - i,
                {
                    i += 1;
                }
                let word = text.substring_char(start, i).to_owned();
                assert(is_word(word@)) by {
                    assert(word@ == s.subrange(start as int, i as int));
                    assert forall|j: int| 0 <= j < word@.len() implies is_ident_char(
                        #[trigger] word@[j],
                    ) by {
                        assert(word@[j] == s[start + j]);
                    }
                }
                tok = Tok::Ident(word);
            } else {
                match single_mark(c) {
                    Some(p) => {
                        i += 1;
                        tok = Tok::Mark(p);
                    },
                    None => {
                        if c == '=' && i + 1 < n && (chars[i + 1] == '=' || chars[i + 1] == '>') {
                            tok = if chars[i + 1] == '=' {
                                Tok::Mark(Punct::EqEq)
                            } else {
                                Tok::Mark(Punct::Arrow)
                            };
                            i += 2;
                        } else {
                            let e = DefError { kind: ErrorKind::UnexpectedChar, pos: i };
                            proof {
                                assert(tokenizes_upto(text@, toks@, e.pos as int));
                                assert forall|ts: Seq<Token>| !tokenizes(text@, ts) by {
                                    lemma_no_tokenization(s, toks@, i as int, ts);
                                }
                            }
                            return Err(e);
                        }
                    },
                }
            }
            let t = Token { tok, pos: start };
            toks.push(t);
            proof {
                assert(s.subrange(t@.pos, token_end(t@)) =~= lexeme_text(t@.lex));
                assert(toks@ == before.push(t));
                lemma_push_token(s, before, start as int, t, i as int);
            }
        }
    }
    Ok(toks)
}


/// Two token lists that say the same.
pub open spec fn same_tokens(a: Seq<Token>, b: Seq<Token>) -> bool {
    a.len() == b.len() && forall|k: int| 0 <= k < a.len() ==> #[trigger] a[k]@ == b[k]@
}

proof fn lemma_first_char(s: Seq<char>, t: Spanned)
    requires
        token_at(s, t),
    ensures
        t.pos < s.len(),
        lexeme_text(t.lex).len() > 0,
        s[t.pos] == lexeme_text(t.lex)[0],
        !is_space(s[t.pos]),
        starts_token(s, t.pos),
{
    let e = token_end(t);
    assert(s.subrange(t.pos, e)[0] == s[t.pos]);
    if let Lexeme::Word(w) = t.lex {
        assert(is_ident_start(w[0]));
    } else {
        if t.lex == Lexeme::Mark(Punct::EqEq) || t.lex == Lexeme::Mark(Punct::Arrow) {
            assert(s.subrange(t.pos, e)[1] == s[t.pos + 1]);
        }
    }
}

/// Where two tokens start at one offset, they are the same token.
proof fn lemma_same_start(s: Seq<char>, t: Spanned, u: Spanned)
    requires
        token_at(s, t),
        token_at(s, u),
        t.pos == u.pos,
    ensures
        t == u,
{
    lemma_first_char(s, t);
    lemma_first_char(s, u);
    let p = t.pos;
    let a = lexeme_text(t.lex);
    let b = lexeme_text(u.lex);
    assert(s.subrange(p, token_end(t)) == a);
    assert(s.subrange(p, token_end(u)) == b);
    match (t.lex, u.lex) {
        (Lexeme::Word(w1), Lexeme::Word(w2)) => {
            if w1.len() < w2.len() {
                assert(s.subrange(p, token_end(u))[w1.len() as int] == s[p + w1.len()]);
                assert(is_ident_char(w2[w1.len() as int]));
            } else if w2.len() < w1.len() {
                assert(s.subrange(p, token_end(t))[w2.len() as int] == s[p + w2.len()]);
                assert(is_ident_char(w1[w2.len() as int]));
            }
            assert(w1 =~= w2);
        },
        (Lexeme::Mark(m1), Lexeme::Mark(m2)) => {
            if a.len() > 1 && b.len() > 1 {
                assert(s.subrange(p, token_end(t))[1] == s[p + 1]);
                assert(s.subrange(p, token_end(u))[1] == s[p + 1]);
            }
        },
        _ => {},
    }
}

proof fn lemma_upto_at(s: Seq<char>, p: Seq<Token>, lim: int, k: int)
    requires
        tokenizes_upto(s, p, lim),
        -1 <= k < p.len(),
    ensures
        k >= 0 ==> token_at(s, p[k]@),
        k >= 0 ==> token_end(p[k]@) <= next_start(p, k, lim),
        blank(s, if k >= 0 { token_end(p[k]@) } else { 0 }, next_start(p, k, lim)),
{
    reveal(tokenizes_upto);
    if k >= 0 {
        assert(token_at(s, p[k]@));
        assert(blank(s, token_end(p[k]@), next_start(p, k, lim)));
    } else {
        assert(blank(s, 0, next_start(p, -1, lim)));
    }
}

/// Where the tokens agree up to index `k`, the next token of each starts at the first
/// character after them that is not white space.
proof fn lemma_agree_step(s: Seq<char>, p: Seq<Token>, lim: int, t: Seq<Token>, k: int)
    requires
        tokenizes_upto(s, p, lim),
        tokenizes(s, t),
        lim <= s.len(),
        0 <= k < p.len(),
        k <= t.len(),
        k > 0 ==> p[k - 1]@ == t[k - 1]@,
    ensures
        k < t.len(),
        p[k]@ == t[k]@,
{
    lemma_upto_at(s, p, lim, k - 1);
    lemma_upto_at(s, t, s.len() as int, k - 1);
    lemma_upto_at(s, p, lim, k);
    let a = p[k]@;
    lemma_first_char(s, a);
    if k == t.len() {
        assert(is_space(s[a.pos]));
    }
    lemma_upto_at(s, t, s.len() as int, k);
    let b = t[k]@;
    lemma_first_char(s, b);
    if a.pos < b.pos {
        assert(is_space(s[a.pos]));
    }
    if b.pos < a.pos {
        assert(is_space(s[b.pos]));
    }
    lemma_same_start(s, a, b);
}

/// Tokens of `s` up to `lim` are the first tokens of every tokenization of `s`.
proof fn lemma_agree(s: Seq<char>, p: Seq<Token>, lim: int, t: Seq<Token>, k: int)
    requires
        tokenizes_upto(s, p, lim),
        tokenizes(s, t),
        lim <= s.len(),
        0 <= k <= p.len(),
    ensures
        k <= t.len(),
        forall|j: int| 0 <= j < k ==> #[trigger] p[j]@ == t[j]@,
    decreases k,
{
    if k > 0 {
        lemma_agree(s, p, lim, t, k - 1);
        lemma_agree_step(s, p, lim, t, k - 1);
    }
}

/// After the tokens up to `lim`, the next token of a tokenization starts at `lim` or later.
proof fn lemma_next_after(s: Seq<char>, p: Seq<Token>, lim: int, t: Seq<Token>)
    requires
        tokenizes_upto(s, p, lim),
        tokenizes(s, t),
        lim <= s.len(),
        p.len() < t.len(),
    ensures
        t[p.len() as int]@.pos >= lim,
{
    let k = p.len() as int;
    lemma_agree(s, p, lim, t, k);
    lemma_upto_at(s, p, lim, k - 1);
    lemma_upto_at(s, t, s.len() as int, k - 1);
    lemma_upto_at(s, t, s.len() as int, k);
    let b = t[k]@;
    lemma_first_char(s, b);
    if k > 0 {
        assert(p[k - 1]@ == t[k - 1]@);
    }
    if b.pos < lim {
        assert(is_space(s[b.pos]));
    }
}

/// A text has at most one tokenization.
pub proof fn lemma_tokenization_unique(s: Seq<char>, a: Seq<Token>, b: Seq<Token>)
    requires
        tokenizes(s, a),
        tokenizes(s, b),
    ensures
        same_tokens(a, b),
{
    lemma_agree(s, a, s.len() as int, b, a.len() as int);
    lemma_agree(s, b, s.len() as int, a, b.len() as int);
    if a.len() < b.len() {
        lemma_next_after(s, a, s.len() as int, b);
        lemma_upto_at(s, b, s.len() as int, a.len() as int);
        lemma_first_char(s, b[a.len() as int]@);
    }
}

/// Where the tokens up to `lim` are followed by a character that is neither white space nor
/// the start of a token, the text has no tokenization.
#[verifier::rlimit(50)]
pub proof fn lemma_no_tokenization(s: Seq<char>, p: Seq<Token>, lim: int, t: Seq<Token>)
    requires
        tokenizes_upto(s, p, lim),
        0 <= lim < s.len(),
        !is_space(s[lim]),
        !starts_token(s, lim),
    ensures
        !tokenizes(s, t),
{
    if tokenizes(s, t) {
        let k = p.len() as int;
        lemma_agree(s, p, lim, t, k);
        lemma_upto_at(s, p, lim, k - 1);
        lemma_upto_at(s, t, s.len() as int, k - 1);
        if k > 0 {
            assert(p[k - 1]@ == t[k - 1]@);
        }
        if k < t.len() {
            lemma_next_after(s, p, lim, t);
            lemma_upto_at(s, t, s.len() as int, k);
            let b = t[k]@;
            lemma_first_char(s, b);
            if b.pos > lim {
                assert(is_space(s[lim]));
            }
        } else {
            assert(is_space(s[lim]));
        }
    }
}

} // verus!
