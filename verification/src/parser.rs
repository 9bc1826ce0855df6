//! The parser: recursive descent over tokens with the precedence
//! or < and < not < primary, wrapping every level, so that even a single
//! variable parses as a sum of one product.

use vstd::prelude::*;

use crate::equation::{views_of, Equation, Expr, Not, Prod, Sum};
use crate::lexer::{Token, TokenS};

verus! {

broadcast use {vstd::std_specs::vec::group_vec_axioms, vstd::seq::group_seq_axioms};

/// What remains to parse, never negative.
pub open spec fn remaining(toks: Seq<TokenS>, i: int) -> int {
    if 0 <= i <= toks.len() {
        toks.len() - i
    } else {
        0
    }
}

/// Parses a sum at position `i`: products separated by `or` tokens.
pub open spec fn parse_sum(toks: Seq<TokenS>, i: int) -> Option<(Expr, int)>
    decreases remaining(toks, i), 3int,
{
    match parse_prod(toks, i) {
        None => None,
        Some((e1, j)) => {
            if 0 <= i < j <= toks.len() {
                parse_sum_rest(toks, j, seq![e1])
            } else {
                None
            }
        },
    }
}

/// Parses the `or`-separated continuation of a sum.
pub open spec fn parse_sum_rest(toks: Seq<TokenS>, i: int, acc: Seq<Expr>) -> Option<(Expr, int)>
    decreases remaining(toks, i), 4int,
{
    if 0 <= i < toks.len() && toks[i] is Or {
        match parse_prod(toks, i + 1) {
            None => None,
            Some((e2, j)) => {
                if i + 1 < j <= toks.len() {
                    parse_sum_rest(toks, j, acc.push(e2))
                } else {
                    None
                }
            },
        }
    } else {
        Some((Expr::Sum(acc, Seq::empty()), i))
    }
}

/// Parses a product at position `i`: negations separated by `and` tokens.
pub open spec fn parse_prod(toks: Seq<TokenS>, i: int) -> Option<(Expr, int)>
    decreases remaining(toks, i), 2int,
{
    match parse_not(toks, i) {
        None => None,
        Some((e1, j)) => {
            if 0 <= i < j <= toks.len() {
                parse_prod_rest(toks, j, seq![e1])
            } else {
                None
            }
        },
    }
}

/// Parses the `and`-separated continuation of a product.
pub open spec fn parse_prod_rest(toks: Seq<TokenS>, i: int, acc: Seq<Expr>) -> Option<(Expr, int)>
    decreases remaining(toks, i), 3int,
{
    if 0 <= i < toks.len() && toks[i] is And {
        match parse_not(toks, i + 1) {
            None => None,
            Some((e2, j)) => {
                if i + 1 < j <= toks.len() {
                    parse_prod_rest(toks, j, acc.push(e2))
                } else {
                    None
                }
            },
        }
    } else {
        Some((Expr::Prod(acc), i))
    }
}

/// Parses an optional negation followed by a primary.
pub open spec fn parse_not(toks: Seq<TokenS>, i: int) -> Option<(Expr, int)>
    decreases remaining(toks, i), 1int,
{
    if 0 <= i < toks.len() && toks[i] is Not {
        match parse_literal(toks, i + 1) {
            None => None,
            Some((e, j)) => Some((Expr::Not(Box::new(e)), j)),
        }
    } else {
        parse_literal(toks, i)
    }
}

/// Parses a primary: a parenthesized sum or a variable.
pub open spec fn parse_literal(toks: Seq<TokenS>, i: int) -> Option<(Expr, int)>
    decreases remaining(toks, i), 0int,
{
    if i < 0 || i >= toks.len() {
        None
    } else if toks[i] is LParen {
        match parse_sum(toks, i + 1) {
            None => None,
            Some((e, j)) => {
                if 0 <= j < toks.len() && toks[j] is RParen {
                    Some((e, j + 1))
                } else {
                    None
                }
            },
        }
    } else {
        match toks[i] {
            TokenS::Ident(w) => Some((Expr::Var(w), i + 1)),
            _ => None,
        }
    }
}

/// The parser: a token list and a cursor.
pub struct EqParser {
    pub tokens: Vec<Token>,
    pub pos: usize,
}

/// The models of the parser's tokens.
pub open spec fn tviews(p: EqParser) -> Seq<TokenS> {
    crate::lexer::token_views(p.tokens@)
}

impl EqParser {
    /// A parser over the given tokens, at their start.
    pub fn new(tokens: Vec<Token>) -> (r: EqParser)
        ensures
            r.tokens@ == tokens@,
            r.pos == 0,
    {
        EqParser { tokens, pos: 0 }
    }

    /// Whether the cursor is past the last token.
    pub fn is_at_end(&self) -> (r: bool)
        ensures
            r == (self.pos >= self.tokens@.len()),
    {
        self.pos >= self.tokens.len()
    }

    /// Whether the next token is the given one.
    pub fn check(&self, token: &Token) -> (r: bool)
        ensures
            r == (self.pos < self.tokens@.len() && tviews(*self)[self.pos as int] == token@),
    {
        if self.pos >= self.tokens.len() {
            return false;
        }
        token_eq(&self.tokens[self.pos], token)
    }

    /// Parses the whole token list as a sum.
    pub fn parse(&mut self) -> (r: Result<Equation, usize>)
        ensures
            final(self).tokens@ == old(self).tokens@,
            match r {
                Ok(e) => parse_sum(tviews(*old(self)), old(self).pos as int) == Some(
                    (e@, final(self).pos as int),
                ),
                Err(_) => parse_sum(tviews(*old(self)), old(self).pos as int) is None,
            },
    {
        self.sum()
    }

    /// Parses a sum: products separated by `or` tokens.
    #[verifier::loop_isolation(false)]
    pub fn sum(&mut self) -> (r: Result<Equation, usize>)
        ensures
            final(self).tokens@ == old(self).tokens@,
            old(self).pos <= final(self).pos,
            match r {
                Ok(e) => parse_sum(tviews(*old(self)), old(self).pos as int) == Some(
                    (e@, final(self).pos as int),
                ) && old(self).pos < final(self).pos <= final(self).tokens@.len(),
                Err(_) => parse_sum(tviews(*old(self)), old(self).pos as int) is None,
            },
        decreases remaining(tviews(*self), self.pos as int), 3int,
    {
        let ghost toks = tviews(*self);
        let ghost start = self.pos as int;
        let first = match self.prod() {
            Ok(e) => e,
            Err(p) => {
                return Err(p);
            },
        };
        let mut sm: Vec<Equation> = Vec::new();
        let ghost fv = first@;
        sm.push(first);
        proof {
            assert(views_of(sm@) =~= seq![fv]);
            assert(parse_sum(toks, start) == parse_sum_rest(toks, self.pos as int, seq![fv]));
        }
        loop
            invariant
                self.tokens@ == old(self).tokens@,
                start < self.pos as int <= toks.len(),
                parse_sum(toks, start) == parse_sum_rest(
                    toks,
                    self.pos as int,
                    views_of(sm@),
                ),
            decreases toks.len() - self.pos,
        {
            let is_or = if self.pos >= self.tokens.len() {
                false
            } else {
                match &self.tokens[self.pos] {
                    Token::Or => true,
                    _ => false,
                }
            };
            if !is_or {
                break ;
            }
            self.pos = self.pos + 1;
            let e2 = match self.prod() {
                Ok(e) => e,
                Err(p) => {
                    return Err(p);
                },
            };
            let ghost sv = views_of(sm@);
            let ghost ev = e2@;
            sm.push(e2);
            proof {
                assert(views_of(sm@) =~= sv.push(ev));
            }
        }
        let ghost sv = views_of(sm@);
        let empty_sh: Vec<Equation> = Vec::new();
        proof {
            assert(views_of(empty_sh@) =~= Seq::<Expr>::empty());
            assert(parse_sum_rest(toks, self.pos as int, sv) == Some(
                (Expr::Sum(sv, Seq::empty()), self.pos as int),
            ));
        }
        Ok(Equation::Sum(Box::new(Sum { inner: sm, already_simplified: empty_sh })))
    }

    /// Parses a product: negations separated by `and` tokens.
    #[verifier::loop_isolation(false)]
    pub fn prod(&mut self) -> (r: Result<Equation, usize>)
        ensures
            final(self).tokens@ == old(self).tokens@,
            old(self).pos <= final(self).pos,
            match r {
                Ok(e) => parse_prod(tviews(*old(self)), old(self).pos as int) == Some(
                    (e@, final(self).pos as int),
                ) && old(self).pos < final(self).pos <= final(self).tokens@.len(),
                Err(_) => parse_prod(tviews(*old(self)), old(self).pos as int) is None,
            },
        decreases remaining(tviews(*self), self.pos as int), 2int,
    {
        let ghost toks = tviews(*self);
        let ghost start = self.pos as int;
        let first = match self.not() {
            Ok(e) => e,
            Err(p) => {
                return Err(p);
            },
        };
        let mut sm: Vec<Equation> = Vec::new();
        let ghost fv = first@;
        sm.push(first);
        proof {
            assert(views_of(sm@) =~= seq![fv]);
            assert(parse_prod(toks, start) == parse_prod_rest(toks, self.pos as int, seq![fv]));
        }
        loop
            invariant
                self.tokens@ == old(self).tokens@,
                start < self.pos as int <= toks.len(),
                parse_prod(toks, start) == parse_prod_rest(
                    toks,
                    self.pos as int,
                    views_of(sm@),
                ),
            decreases toks.len() - self.pos,
        {
            let is_and = if self.pos >= self.tokens.len() {
                false
            } else {
                match &self.tokens[self.pos] {
                    Token::And => true,
                    _ => false,
                }
            };
            if !is_and {
                break ;
            }
            self.pos = self.pos + 1;
            let e2 = match self.not() {
                Ok(e) => e,
                Err(p) => {
                    return Err(p);
                },
            };
            let ghost sv = views_of(sm@);
            let ghost ev = e2@;
            sm.push(e2);
            proof {
                assert(views_of(sm@) =~= sv.push(ev));
            }
        }
        let ghost sv = views_of(sm@);
        proof {
            assert(parse_prod_rest(toks, self.pos as int, sv) == Some(
                (Expr::Prod(sv), self.pos as int),
            ));
        }
        Ok(Equation::Prod(Box::new(Prod { inner: sm })))
    }

    /// Parses an optional negation followed by a primary.
    pub fn not(&mut self) -> (r: Result<Equation, usize>)
        ensures
            final(self).tokens@ == old(self).tokens@,
            old(self).pos <= final(self).pos,
            match r {
                Ok(e) => parse_not(tviews(*old(self)), old(self).pos as int) == Some(
                    (e@, final(self).pos as int),
                ) && old(self).pos < final(self).pos <= final(self).tokens@.len(),
                Err(_) => parse_not(tviews(*old(self)), old(self).pos as int) is None,
            },
        decreases remaining(tviews(*self), self.pos as int), 1int,
    {
        let is_not = if self.pos >= self.tokens.len() {
            false
        } else {
            match &self.tokens[self.pos] {
                Token::Not => true,
                _ => false,
            }
        };
        if is_not {
            self.pos = self.pos + 1;
            match self.literal() {
                Ok(e) => Ok(Equation::Not(Box::new(Not { inner: e }))),
                Err(p) => Err(p),
            }
        } else {
            self.literal()
        }
    }

    /// Parses a primary: a parenthesized sum or a variable.
    pub fn literal(&mut self) -> (r: Result<Equation, usize>)
        ensures
            final(self).tokens@ == old(self).tokens@,
            old(self).pos <= final(self).pos,
            match r {
                Ok(e) => parse_literal(tviews(*old(self)), old(self).pos as int) == Some(
                    (e@, final(self).pos as int),
                ) && old(self).pos < final(self).pos <= final(self).tokens@.len(),
                Err(_) => parse_literal(tviews(*old(self)), old(self).pos as int) is None,
            },
        decreases remaining(tviews(*self), self.pos as int), 0int,
    {
        if self.pos >= self.tokens.len() {
            return Err(self.pos);
        }
        let is_lparen = match &self.tokens[self.pos] {
            Token::LParen => true,
            _ => false,
        };
        if is_lparen {
            self.pos = self.pos + 1;
            let inner = match self.sum() {
                Ok(e) => e,
                Err(p) => {
                    return Err(p);
                },
            };
            if self.pos >= self.tokens.len() {
                return Err(self.pos);
            }
            let is_rparen = match &self.tokens[self.pos] {
                Token::RParen => true,
                _ => false,
            };
            if !is_rparen {
                return Err(self.pos);
            }
            self.pos = self.pos + 1;
            Ok(inner)
        } else {
            match &self.tokens[self.pos] {
                Token::Ident(w) => {
                    let name = w.clone();
                    self.pos = self.pos + 1;
                    Ok(Equation::Var(name))
                },
                _ => Err(self.pos),
            }
        }
    }
}

/// Whether two tokens are the same, identifier text included.
fn token_eq(a: &Token, b: &Token) -> (r: bool)
    ensures
        r == (a@ == b@),
{
    match (a, b) {
        (Token::Ignore, Token::Ignore) => true,
        (Token::False, Token::False) => true,
        (Token::True, Token::True) => true,
        (Token::Not, Token::Not) => true,
        (Token::LParen, Token::LParen) => true,
        (Token::RParen, Token::RParen) => true,
        (Token::And, Token::And) => true,
        (Token::Or, Token::Or) => true,
        (Token::Ident(x), Token::Ident(y)) => x.eq(y),
        _ => false,
    }
}

} // verus!
