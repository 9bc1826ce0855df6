//! Reading an equation from text and writing a tree back as text.

use vstd::prelude::*;

use crate::equation::{clean, clean_list, views_of, Equation, Expr};
use crate::lexer::{first_bad, lex_from, EqLexer, TokenS};
use crate::parser::{
    parse_literal, parse_not, parse_prod, parse_prod_rest, parse_sum, parse_sum_rest, EqParser,
};

verus! {

broadcast use {vstd::std_specs::vec::group_vec_axioms, vstd::seq::group_seq_axioms};

/// Why a text failed to become a tree: an unrecognized character, or an
/// unexpected token at a position.
#[derive(Debug, PartialEq)]
pub enum EqError {
    Lex(char),
    Parse(usize),
}

/// Every parse result is a clean tree.
proof fn lemma_parse_clean(toks: Seq<TokenS>, i: int)
    ensures
        parse_sum(toks, i) matches Some(pr) ==> clean(pr.0),
        parse_prod(toks, i) matches Some(pr) ==> clean(pr.0),
        parse_not(toks, i) matches Some(pr) ==> clean(pr.0),
        parse_literal(toks, i) matches Some(pr) ==> clean(pr.0),
    decreases crate::parser::remaining(toks, i), 5int,
{
    if i < 0 || i >= toks.len() {
        match parse_sum(toks, i) {
            Some(_) => {
                assert(parse_literal(toks, i) is None);
                assert(parse_not(toks, i) is None);
                assert(parse_prod(toks, i) is None);
            },
            None => {},
        }
    } else {
        if toks[i] is LParen {
            lemma_parse_clean(toks, i + 1);
        }
        assert(parse_literal(toks, i) matches Some(pr) ==> clean(pr.0)) by {
            match parse_literal(toks, i) {
                Some(pr) => {
                    if toks[i] is LParen {
                    } else {
                        match toks[i] {
                            TokenS::Ident(w) => {
                                assert(pr.0 == Expr::Var(w));
                                assert(clean(Expr::Var(w)));
                            },
                            _ => {},
                        }
                    }
                },
                None => {},
            }
        }
        if toks[i] is Not {
            lemma_parse_clean(toks, i + 1);
        }
        assert(parse_not(toks, i) matches Some(pr) ==> clean(pr.0)) by {
            match parse_not(toks, i) {
                Some(pr) => {
                    if toks[i] is Not {
                        match parse_literal(toks, i + 1) {
                            Some(pr2) => {
                                assert(pr.0 == Expr::Not(Box::new(pr2.0)));
                                assert(clean(pr.0) == clean(pr2.0));
                            },
                            None => {},
                        }
                    }
                },
                None => {},
            }
        }
        match parse_not(toks, i) {
            Some((e1, j)) => {
                if 0 <= i < j <= toks.len() {
                    assert(clean_list(seq![e1])) by {
                        assert(seq![e1].drop_first() =~= Seq::<Expr>::empty());
                        assert(clean_list(Seq::<Expr>::empty()));
                        assert(clean(seq![e1][0]));
                    }
                    lemma_parse_rest_clean(toks, j, seq![e1], 0);
                }
            },
            None => {},
        }
        match parse_prod(toks, i) {
            Some((e1, j)) => {
                if 0 <= i < j <= toks.len() {
                    assert(clean_list(seq![e1])) by {
                        assert(seq![e1].drop_first() =~= Seq::<Expr>::empty());
                        assert(clean_list(Seq::<Expr>::empty()));
                        assert(clean(seq![e1][0]));
                    }
                    lemma_parse_rest_clean(toks, j, seq![e1], 1);
                }
            },
            None => {},
        }
    }
}

/// Every continuation parse over clean accumulators is clean; `which`
/// zero is a product continuation, one a sum continuation.
proof fn lemma_parse_rest_clean(toks: Seq<TokenS>, i: int, acc: Seq<Expr>, which: int)
    requires
        clean_list(acc),
    ensures
        which == 0 ==> (parse_prod_rest(toks, i, acc) matches Some(pr) ==> clean(pr.0)),
        which == 1 ==> (parse_sum_rest(toks, i, acc) matches Some(pr) ==> clean(pr.0)),
    decreases crate::parser::remaining(toks, i), 6int, 1int + which,
{
    if which == 0 {
        if 0 <= i < toks.len() && toks[i] is And {
            lemma_parse_clean(toks, i + 1);
            match parse_not(toks, i + 1) {
                Some((e2, j)) => {
                    if i + 1 < j <= toks.len() {
                        crate::equation::lemma_clean_push(acc, e2);
                        lemma_parse_rest_clean(toks, j, acc.push(e2), 0);
                    }
                },
                None => {},
            }
        } else {
            assert(parse_prod_rest(toks, i, acc) == Some((Expr::Prod(acc), i)));
        }
    } else if which == 1 {
        if 0 <= i < toks.len() && toks[i] is Or {
            lemma_parse_clean(toks, i + 1);
            match parse_prod(toks, i + 1) {
                Some((e2, j)) => {
                    if i + 1 < j <= toks.len() {
                        crate::equation::lemma_clean_push(acc, e2);
                        lemma_parse_rest_clean(toks, j, acc.push(e2), 1);
                    }
                },
                None => {},
            }
        } else {
            assert(parse_sum_rest(toks, i, acc) == Some(
                (Expr::Sum(acc, Seq::empty()), i),
            ));
            assert(clean(Expr::Sum(acc, Seq::empty())));
        }
    }
}

impl Equation {
    /// Reads an equation from text: the text is tokenized and parsed as a
    /// sum; tokens after the parsed sum are ignored.
    pub fn from(text: String) -> (r: Result<Equation, EqError>)
        ensures
            match r {
                Ok(e) => (match lex_from(text@, 0) {
                    Some(ts) => parse_sum(ts, 0) matches Some(pr) && pr.0 == e@,
                    None => false,
                }) && clean(e@),
                Err(err) => match err {
                    EqError::Lex(c) => lex_from(text@, 0) is None && c == first_bad(text@, 0),
                    EqError::Parse(_) => lex_from(text@, 0) matches Some(ts) && parse_sum(
                        ts,
                        0,
                    ) is None,
                },
            },
    {
        let mut lexer = EqLexer::new(text);
        let tokens = match lexer.get_tokens() {
            Ok(t) => t,
            Err(c) => {
                return Err(EqError::Lex(c));
            },
        };
        let ghost ts = crate::lexer::token_views(tokens@);
        let mut parser = EqParser::new(tokens);
        proof {
            assert(crate::parser::tviews(parser) == ts);
        }
        match parser.parse() {
            Ok(e) => {
                proof {
                    lemma_parse_clean(ts, 0);
                }
                Ok(e)
            },
            Err(p) => Err(EqError::Parse(p)),
        }
    }
}

/// The textual form of a model tree: sums and products always in
/// parentheses with spaced operators, negations as a bang and a space.
pub open spec fn text_of(e: Expr) -> Seq<char>
    decreases e,
{
    match e {
        Expr::Sum(kept, _) => seq!['('] + join_texts(kept, seq![' ', '+', ' ']) + seq![')'],
        Expr::Prod(items) => seq!['('] + join_texts(items, seq![' ', '*', ' ']) + seq![')'],
        Expr::Not(inner) => seq!['!', ' '] + text_of(*inner),
        Expr::Var(n) => n,
    }
}

/// The texts of the trees joined by the separator.
pub open spec fn join_texts(l: Seq<Expr>, sep: Seq<char>) -> Seq<char>
    decreases l,
{
    if l.len() == 0 {
        Seq::empty()
    } else if l.len() == 1 {
        text_of(l[0])
    } else {
        text_of(l[0]) + sep + join_texts(l.drop_first(), sep)
    }
}

/// A joined text grows at the end by a separator and one more text.
proof fn lemma_join_push(l: Seq<Expr>, sep: Seq<char>, x: Expr)
    ensures
        join_texts(l.push(x), sep) == if l.len() == 0 {
            text_of(x)
        } else {
            join_texts(l, sep) + sep + text_of(x)
        },
    decreases l.len(),
{
    if l.len() == 0 {
        assert(l.push(x).len() == 1);
        assert(l.push(x)[0] == x);
    } else if l.len() == 1 {
        assert(l.push(x).drop_first() =~= l.drop_first().push(x));
        assert(l.push(x)[0] == l[0]);
        assert(l.drop_first().push(x).len() == 1);
        assert(l.drop_first().push(x)[0] == x);
        assert(join_texts(l.drop_first().push(x), sep) == text_of(x));
        assert(join_texts(l.push(x), sep) == text_of(l[0]) + sep + text_of(x));
    } else {
        lemma_join_push(l.drop_first(), sep, x);
        assert(l.push(x).drop_first() =~= l.drop_first().push(x));
        assert(l.push(x)[0] == l[0]);
        assert((text_of(l[0]) + sep + join_texts(l.drop_first(), sep)) + sep + text_of(x)
            =~= text_of(l[0]) + sep + (join_texts(l.drop_first(), sep) + sep + text_of(x)));
    }
}

impl Equation {
    /// The textual form of the tree.
    #[verifier::loop_isolation(false)]
    pub fn to_text(&self) -> (r: String)
        ensures
            r@ == text_of(self@),
        decreases self,
    {
        match self {
            Equation::Var(name) => {
                let mut r = String::new();
                r.append(name.as_str());
                r
            },
            Equation::Not(n) => {
                let mut r = String::new();
                r.append("! ");
                let sub = n.inner.to_text();
                r.append(sub.as_str());
                proof {
                    reveal_strlit("! ");
                    assert("! "@ =~= seq!['!', ' ']);
                }
                r
            },
            Equation::Sum(s) => {
                proof {
                    assert(self@ == Expr::Sum(
                        views_of(s.inner@),
                        views_of(s.already_simplified@),
                    ));
                }
                join_all(&s.inner, true)
            },
            Equation::Prod(p) => {
                proof {
                    assert(self@ == Expr::Prod(views_of(p.inner@)));
                }
                join_all(&p.inner, false)
            },
        }
    }
}

/// The parenthesized, joined texts of a list of trees, with a plus or a
/// star between them.
#[verifier::loop_isolation(false)]
fn join_all(items: &Vec<Equation>, plus: bool) -> (r: String)
    ensures
        r@ == seq!['('] + join_texts(views_of(items@), if plus {
            seq![' ', '+', ' ']
        } else {
            seq![' ', '*', ' ']
        }) + seq![')'],
    decreases items,
{
    let ghost ov = views_of(items@);
    let ghost sep: Seq<char> = if plus {
        seq![' ', '+', ' ']
    } else {
        seq![' ', '*', ' ']
    };
    let mut r = String::new();
    r.append("(");
    proof {
        reveal_strlit("(");
        reveal_strlit(")");
        reveal_strlit(" + ");
        reveal_strlit(" * ");
        assert("("@ =~= seq!['(']);
        assert(")"@ =~= seq![')']);
        assert(" + "@ =~= seq![' ', '+', ' ']);
        assert(" * "@ =~= seq![' ', '*', ' ']);
        assert(ov.take(0) =~= Seq::<Expr>::empty());
    }
    let mut i: usize = 0;
    while i < items.len()
        invariant
            i <= items@.len(),
            r@ == seq!['('] + join_texts(ov.take(i as int), sep),
        decreases items@.len() - i,
    {
        if i > 0 {
            if plus {
                r.append(" + ");
            } else {
                r.append(" * ");
            }
        }
        let sub = items[i].to_text();
        r.append(sub.as_str());
        proof {
            assert(ov.take(i + 1) =~= ov.take(i as int).push(ov[i as int]));
            lemma_join_push(ov.take(i as int), sep, ov[i as int]);
            if i > 0 {
                assert((seq!['('] + join_texts(ov.take(i as int), sep)) + sep + text_of(
                    ov[i as int],
                ) =~= seq!['('] + (join_texts(ov.take(i as int), sep) + sep + text_of(
                    ov[i as int],
                )));
            } else {
                assert(ov.take(0) =~= Seq::<Expr>::empty());
                assert(seq!['('] + Seq::<char>::empty() =~= seq!['(']);
                assert(seq!['('] + text_of(ov[0]) =~= seq!['('] + join_texts(ov.take(1), sep));
            }
        }
        i = i + 1;
    }
    r.append(")");
    proof {
        assert(ov.take(ov.len() as int) =~= ov);
        assert((seq!['('] + join_texts(ov, sep)) + seq![')'] =~= seq!['('] + join_texts(ov, sep)
            + seq![')']);
    }
    r
}

} // verus!
