use vstd::prelude::*;
use crate::error::{DefError, ErrorKind};
use crate::lexer::{Token, tokenizes_upto, is_space, lemma_tokenization_unique, same_tokens, starts_token, tokenize, tokenizes};
use crate::model::{Definition, build, is_model};
use crate::lexer::{Lexeme, Punct};
use crate::syntax::{MachineV, Piece, located, machine_fits, option_name_at, option_sep_at, parse, render_machine, renders, unknown_option_at, unknown_option_error, word_of};
use crate::validate::option_known;
use crate::validate::problems;

verus! {

/// `text` is the written form of the definition `m`, split into the tokens `ts`.
pub open spec fn reads_as(text: Seq<char>, ts: Seq<Token>, m: MachineV) -> bool {
    tokenizes(text, ts) && renders(ts, render_machine(m))
}

proof fn lemma_same_renders(a: Seq<Token>, b: Seq<Token>, ps: Seq<Piece>)
    requires
        same_tokens(a, b),
        renders(a, ps),
    ensures
        renders(b, ps),
{
    assert forall|k: int| 0 <= k < ps.len() implies crate::syntax::piece_ok(#[trigger] b[0 + k]@, ps[k]) by {
        assert(crate::syntax::piece_ok(a[0 + k]@, ps[k]));
        assert(a[k]@ == b[k]@);
    }
}

proof fn lemma_same_options(a: Seq<Token>, b: Seq<Token>, k: int)
    requires
        same_tokens(a, b),
        unknown_option_at(a, k),
    ensures
        unknown_option_at(b, k),
        unknown_option_error(a, k) == unknown_option_error(b, k),
{
    assert(a[0]@ == b[0]@);
    assert(option_name_at(a, k) == option_name_at(b, k));
    assert forall|m: int| 0 <= m <= k implies (#[trigger] option_name_at(b, m)).lex is Word by {
        assert(option_name_at(a, m) == option_name_at(b, m));
    }
    assert forall|m: int|
        0 <= m < k implies option_sep_at(b, m).lex == Lexeme::Mark(Punct::Comma) && option_known(
            word_of(#[trigger] option_name_at(b, m)),
        ) by {
        assert(option_name_at(a, m) == option_name_at(b, m));
        assert(option_sep_at(a, m) == option_sep_at(b, m));
    }
}

/// Compiles the text of a definition: splits it into tokens, reads the definition they
/// write, checks it and resolves its names. Where the text is the written form of a
/// definition, the result is that definition's model if it has no errors, else the first of
/// its errors; where it is not, an error about its characters or tokens.
pub fn statemachine(text: &str) -> (r: Result<Definition, DefError>)
    ensures
        r matches Ok(d) ==> d@.wf() && exists|ts: Seq<Token>, m: MachineV|
            #[trigger] reads_as(text@, ts, m) && problems(m).len() == 0 && is_model(m, d@),
        r matches Err(e) ==> {
            ||| {
                &&& e.kind == ErrorKind::UnexpectedChar
                &&& forall|ts: Seq<Token>| !tokenizes(text@, ts)
                &&& exists|ts: Seq<Token>| #[trigger] tokenizes_upto(text@, ts, e.pos as int)
                &&& e.pos < text@.len()
                &&& !is_space(text@[e.pos as int])
                &&& !starts_token(text@, e.pos as int)
            }
            ||| exists|ts: Seq<Token>, k: int|
                tokenizes(text@, ts) && #[trigger] unknown_option_at(ts, k) && e
                    == unknown_option_error(ts, k)
            ||| exists|ts: Seq<Token>|
                #[trigger] tokenizes(text@, ts) && e.kind == ErrorKind::Syntax && located(
                    ts,
                    e,
                    text@.len() as int,
                )
            ||| exists|ts: Seq<Token>, m: MachineV|
                #[trigger] reads_as(text@, ts, m) && problems(m).len() > 0 && e == problems(m)[0]
        },
        forall|ts: Seq<Token>, k: int|
            tokenizes(text@, ts) && #[trigger] unknown_option_at(ts, k) ==> r == Err::<Definition, DefError>(
                unknown_option_error(ts, k),
            ),
        forall|ts: Seq<Token>, m: MachineV|
            #[trigger] reads_as(text@, ts, m) && machine_fits(m) ==> {
                &&& r is Ok <==> problems(m).len() == 0
                &&& r matches Ok(d) ==> is_model(m, d@)
                &&& r matches Err(e) ==> e == problems(m)[0]
            },
{
    let ts = match tokenize(text) {
        Ok(ts) => ts,
        Err(e) => {
            return Err(e);
        },
    };
    let end = text.unicode_len();
    proof {
        assert forall|ts2: Seq<Token>, k: int|
            tokenizes(text@, ts2) && #[trigger] unknown_option_at(ts2, k) implies unknown_option_at(ts@, k)
            && unknown_option_error(ts2, k) == unknown_option_error(ts@, k) by {
            lemma_tokenization_unique(text@, ts2, ts@);
            lemma_same_options(ts2, ts@, k);
        }
        assert forall|ts2: Seq<Token>, m: MachineV|
            #[trigger] reads_as(text@, ts2, m) implies renders(ts@, render_machine(m)) by {
            lemma_tokenization_unique(text@, ts2, ts@);
            lemma_same_renders(ts2, ts@, render_machine(m));
        }
    }
    let m = match parse(&ts, end) {
        Ok(m) => m,
        Err(e) => {
            proof {
                assert(tokenizes(text@, ts@));
            }
            return Err(e);
        },
    };
    let r = build(&m);
    proof {
        assert(reads_as(text@, ts@, m@));
    }
    r
}

} // verus!
