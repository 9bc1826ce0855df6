//! The lexer: turns the textual form of an equation into tokens.

use vstd::prelude::*;

verus! {

broadcast use {vstd::std_specs::vec::group_vec_axioms, vstd::seq::group_seq_axioms};

/// Model of a token; an identifier carries its characters.
pub enum TokenS {
    Ignore,
    False,
    True,
    Not,
    LParen,
    RParen,
    And,
    Or,
    Ident(Seq<char>),
}

/// A token of the textual equation language.
#[derive(Debug, PartialEq)]
pub enum Token {
    Ignore,
    False,
    True,
    Not,
    LParen,
    RParen,
    And,
    Or,
    Ident(String),
}

impl View for Token {
    type V = TokenS;

    open spec fn view(&self) -> TokenS {
        match self {
            Token::Ignore => TokenS::Ignore,
            Token::False => TokenS::False,
            Token::True => TokenS::True,
            Token::Not => TokenS::Not,
            Token::LParen => TokenS::LParen,
            Token::RParen => TokenS::RParen,
            Token::And => TokenS::And,
            Token::Or => TokenS::Or,
            Token::Ident(s) => TokenS::Ident(s@),
        }
    }
}

/// The models of a list of tokens, in order.
pub open spec fn token_views(s: Seq<Token>) -> Seq<TokenS> {
    Seq::new(
        s.len(),
        |i: int|
            if 0 <= i < s.len() {
                s[i]@
            } else {
                TokenS::Ignore
            },
    )
}

/// Whether a character other than whitespace is in a Unicode letter or
/// number category.
pub uninterp spec fn letter_or_number(c: char) -> bool;

/// Whether the character is in a Unicode letter or number category; the
/// whitespace characters are in neither.
pub open spec fn unicode_alphanumeric(c: char) -> bool {
    if c == ' ' || c == '\t' || c == '\r' || c == '\n' {
        false
    } else {
        letter_or_number(c)
    }
}

/// Relies on `char::is_alphanumeric`: whether the character is in a
/// Unicode letter or number category, a function of the character alone;
/// the whitespace characters are in neither category.
#[verifier::external_body]
fn is_alnum(c: char) -> (r: bool)
    ensures
        r == unicode_alphanumeric(c),
        !(c == ' ' || c == '\t' || c == '\r' || c == '\n') ==> r == letter_or_number(c),
{
    c.is_alphanumeric()
}

/// Relies on `str::chars`: the characters of the text in order, which is
/// the string's own view.
#[verifier::external_body]
pub(crate) fn chars_of(s: &str) -> (r: Vec<char>)
    ensures
        r@ == s@,
{
    s.chars().collect()
}

/// Relies on `String`'s `FromIterator`: collecting characters yields the
/// string whose view is that character sequence.
#[verifier::external_body]
pub(crate) fn string_from_chars(v: &Vec<char>) -> (r: String)
    ensures
        r@ == v@,
{
    v.iter().collect()
}

/// The single-character tokens, `None` for anything else.
pub open spec fn single_token(c: char) -> Option<TokenS> {
    if c == '(' {
        Some(TokenS::LParen)
    } else if c == ')' {
        Some(TokenS::RParen)
    } else if c == '.' || c == '*' || c == '&' {
        Some(TokenS::And)
    } else if c == '+' || c == '|' {
        Some(TokenS::Or)
    } else if c == '!' || c == '/' {
        Some(TokenS::Not)
    } else if c == ' ' || c == '\r' || c == '\t' || c == '\n' {
        Some(TokenS::Ignore)
    } else if c == '1' {
        Some(TokenS::True)
    } else if c == '0' {
        Some(TokenS::False)
    } else {
        None
    }
}

/// Whether the character may start an identifier: a letter or a digit
/// from two to nine.
pub open spec fn ident_start(c: char) -> bool {
    (('2' as u32) <= (c as u32) && (c as u32) <= ('9' as u32)) || (('a' as u32) <= (c as u32) && (c
        as u32) <= ('z' as u32)) || (('A' as u32) <= (c as u32) && (c as u32) <= ('Z' as u32))
}

/// Where the identifier starting before position `i` ends: the first
/// position at or after `i` that is not alphanumeric.
pub open spec fn ident_end(s: Seq<char>, i: int) -> int
    decreases s.len() - i,
{
    if 0 <= i < s.len() && unicode_alphanumeric(s[i]) {
        ident_end(s, i + 1)
    } else {
        i
    }
}

/// The identifier end never lies before its start.
pub proof fn lemma_ident_end_ge(s: Seq<char>, i: int)
    ensures
        ident_end(s, i) >= i,
        ident_end(s, i) <= s.len() || ident_end(s, i) == i,
    decreases s.len() - i,
{
    if 0 <= i < s.len() && unicode_alphanumeric(s[i]) {
        lemma_ident_end_ge(s, i + 1);
    }
}

/// The keyword tokens `not`, `and` and `or`; anything else is an
/// identifier.
pub open spec fn keyword_or_ident(w: Seq<char>) -> TokenS {
    if w == seq!['n', 'o', 't'] {
        TokenS::Not
    } else if w == seq!['a', 'n', 'd'] {
        TokenS::And
    } else if w == seq!['o', 'r'] {
        TokenS::Or
    } else {
        TokenS::Ident(w)
    }
}

/// Joins a token onto a successful token list.
pub open spec fn opt_cons(t: TokenS, o: Option<Seq<TokenS>>) -> Option<Seq<TokenS>> {
    match o {
        Some(ts) => Some(seq![t] + ts),
        None => None,
    }
}

/// The tokens of the text from position `i` on, whitespace dropped, or
/// `None` on an unrecognized character.
pub open spec fn lex_from(s: Seq<char>, i: int) -> Option<Seq<TokenS>>
    decreases s.len() - i,
{
    if i < 0 || i >= s.len() {
        Some(Seq::empty())
    } else {
        let c = s[i];
        match single_token(c) {
            Some(t) => {
                if t is Ignore {
                    lex_from(s, i + 1)
                } else {
                    opt_cons(t, lex_from(s, i + 1))
                }
            },
            None => {
                if ident_start(c) {
                    let j = ident_end(s, i + 1);
                    let j2 = if j < i + 1 {
                        i + 1
                    } else if j > s.len() {
                        s.len() as int
                    } else {
                        j
                    };
                    opt_cons(keyword_or_ident(s.subrange(i, j2)), lex_from(s, j2))
                } else {
                    None
                }
            },
        }
    }
}

/// The first unrecognized character from position `i` on.
pub open spec fn first_bad(s: Seq<char>, i: int) -> char
    decreases s.len() - i,
{
    if i < 0 || i >= s.len() {
        ' '
    } else {
        let c = s[i];
        match single_token(c) {
            Some(_) => first_bad(s, i + 1),
            None => {
                if ident_start(c) {
                    let j = ident_end(s, i + 1);
                    let j2 = if j < i + 1 {
                        i + 1
                    } else if j > s.len() {
                        s.len() as int
                    } else {
                        j
                    };
                    first_bad(s, j2)
                } else {
                    c
                }
            },
        }
    }
}

/// The lexer: a character list and a cursor.
pub struct EqLexer {
    pub text: Vec<char>,
    pub pos: usize,
}

impl EqLexer {
    /// A lexer over the characters of the text, at its start.
    pub fn new(eq: String) -> (r: EqLexer)
        ensures
            r.text@ == eq@,
            r.pos == 0,
    {
        EqLexer { text: chars_of(eq.as_str()), pos: 0 }
    }

    /// Whether the cursor is past the last character.
    pub fn is_at_end(&self) -> (r: bool)
        ensures
            r == (self.pos >= self.text@.len()),
    {
        self.pos >= self.text.len()
    }

    /// Reads one token at the cursor and advances past it.
    pub fn next_token(&mut self) -> (r: Result<Token, char>)
        requires
            old(self).pos < old(self).text@.len(),
        ensures
            final(self).text@ == old(self).text@,
            final(self).pos > old(self).pos,
            final(self).pos <= final(self).text@.len(),
            match r {
                Ok(t) => (if t@ is Ignore {
                    lex_from(old(self).text@, old(self).pos as int) == lex_from(
                        final(self).text@,
                        final(self).pos as int,
                    )
                } else {
                    lex_from(old(self).text@, old(self).pos as int) == opt_cons(
                        t@,
                        lex_from(final(self).text@, final(self).pos as int),
                    )
                }) && first_bad(old(self).text@, old(self).pos as int) == first_bad(
                    final(self).text@,
                    final(self).pos as int,
                ) && (match single_token(old(self).text@[old(self).pos as int]) {
                    Some(st) => t@ == st && final(self).pos == old(self).pos + 1,
                    None => ident_start(old(self).text@[old(self).pos as int]) && t@
                        == keyword_or_ident(
                        old(self).text@.subrange(old(self).pos as int, final(self).pos as int),
                    ) && final(self).pos as int == ident_end(
                        old(self).text@,
                        old(self).pos + 1,
                    ),
                }),
                Err(c) => lex_from(old(self).text@, old(self).pos as int) is None && c == first_bad(
                    old(self).text@,
                    old(self).pos as int,
                ) && c == old(self).text@[old(self).pos as int] && single_token(c) is None
                    && !ident_start(c) && final(self).pos == old(self).pos + 1,
            },
    {
        let n = self.text.len();
        proof {
            assert(self.pos < n);
        }
        let c = self.text[self.pos];
        self.pos = self.pos + 1;
        if c == '(' {
            Ok(Token::LParen)
        } else if c == ')' {
            Ok(Token::RParen)
        } else if c == '.' || c == '*' || c == '&' {
            Ok(Token::And)
        } else if c == '+' || c == '|' {
            Ok(Token::Or)
        } else if c == '!' || c == '/' {
            Ok(Token::Not)
        } else if c == ' ' || c == '\r' || c == '\t' || c == '\n' {
            Ok(Token::Ignore)
        } else if c == '1' {
            Ok(Token::True)
        } else if c == '0' {
            Ok(Token::False)
        } else {
            let start_ok = (('2' as u32) <= (c as u32) && (c as u32) <= ('9' as u32)) || (('a'
                as u32) <= (c as u32) && (c as u32) <= ('z' as u32)) || (('A' as u32) <= (c as u32)
                && (c as u32) <= ('Z' as u32));
            if start_ok {
                self.identifier(c)
            } else {
                proof {
                    assert(single_token(c) is None);
                    assert(!ident_start(c));
                }
                Err(c)
            }
        }
    }

    /// Reads the rest of an identifier whose first character has been
    /// consumed, reclassifying the keywords.
    fn identifier(&mut self, first: char) -> (r: Result<Token, char>)
        requires
            old(self).pos >= 1,
            old(self).pos <= old(self).text@.len(),
            old(self).text@[old(self).pos - 1] == first,
            ident_start(first),
            single_token(first) is None,
        ensures
            final(self).text@ == old(self).text@,
            final(self).pos >= old(self).pos,
            final(self).pos <= final(self).text@.len(),
            match r {
                Ok(t) => lex_from(old(self).text@, old(self).pos - 1) == opt_cons(
                    t@,
                    lex_from(final(self).text@, final(self).pos as int),
                ) && !(t@ is Ignore) && first_bad(old(self).text@, old(self).pos - 1) == first_bad(
                    final(self).text@,
                    final(self).pos as int,
                ) && t@ == keyword_or_ident(
                    old(self).text@.subrange(old(self).pos - 1, final(self).pos as int),
                ) && final(self).pos as int == ident_end(old(self).text@, old(self).pos as int),
                Err(_) => false,
            },
    {
        let ghost s = self.text@;
        let start: usize = self.pos - 1;
        loop
            invariant
                self.text@ == s,
                start + 1 <= self.pos as int <= s.len(),
                forall|k: int| start + 1 <= k < self.pos as int ==> unicode_alphanumeric(s[k]),
            ensures
                self.text@ == s,
                start + 1 <= self.pos as int <= s.len(),
                forall|k: int| start + 1 <= k < self.pos as int ==> unicode_alphanumeric(s[k]),
                self.pos as int == s.len() || !unicode_alphanumeric(s[self.pos as int]),
            decreases s.len() - self.pos,
        {
            if self.pos >= self.text.len() {
                break ;
            }
            if !is_alnum(self.text[self.pos]) {
                break ;
            }
            self.pos = self.pos + 1;
            proof {
                assert(unicode_alphanumeric(s[self.pos - 1]));
            }
        }
        proof {
            lemma_ident_scan(s, start + 1, self.pos as int);
        }
        let mut word_chars: Vec<char> = Vec::new();
        let mut k: usize = start;
        while k < self.pos
            invariant
                start <= k as int <= self.pos as int,
                self.pos as int <= s.len(),
                self.text@ == s,
                word_chars@ == s.subrange(start as int, k as int),
            decreases self.pos - k,
        {
            word_chars.push(self.text[k]);
            proof {
                assert(word_chars@ =~= s.subrange(start as int, k + 1));
            }
            k = k + 1;
        }
        let ghost w = s.subrange(start as int, self.pos as int);
        let tok: Token = if word_chars.len() == 3 && word_chars[0] == 'n' && word_chars[1] == 'o'
            && word_chars[2] == 't' {
            proof {
                assert(w =~= seq!['n', 'o', 't']);
            }
            Token::Not
        } else if word_chars.len() == 3 && word_chars[0] == 'a' && word_chars[1] == 'n'
            && word_chars[2] == 'd' {
            proof {
                assert(w =~= seq!['a', 'n', 'd']);
            }
            Token::And
        } else if word_chars.len() == 2 && word_chars[0] == 'o' && word_chars[1] == 'r' {
            proof {
                assert(w =~= seq!['o', 'r']);
            }
            Token::Or
        } else {
            proof {
                if w == seq!['n', 'o', 't'] {
                    assert(word_chars@[0] == 'n' && word_chars@[1] == 'o' && word_chars@[2] == 't');
                }
                if w == seq!['a', 'n', 'd'] {
                    assert(word_chars@[0] == 'a' && word_chars@[1] == 'n' && word_chars@[2] == 'd');
                }
                if w == seq!['o', 'r'] {
                    assert(word_chars@[0] == 'o' && word_chars@[1] == 'r');
                }
            }
            Token::Ident(string_from_chars(&word_chars))
        };
        proof {
            assert(tok@ == keyword_or_ident(w));
            assert(!(tok@ is Ignore));
            let j = ident_end(s, start + 1);
            lemma_ident_end_ge(s, start + 1);
            assert(j == self.pos as int);
            assert(lex_from(s, start as int) == opt_cons(
                keyword_or_ident(s.subrange(start as int, j)),
                lex_from(s, j),
            ));
            assert(first_bad(s, start as int) == first_bad(s, j));
        }
        Ok(tok)
    }

    /// All tokens of the text from the cursor on, whitespace dropped, or
    /// the first unrecognized character.
    #[verifier::loop_isolation(false)]
    pub fn get_tokens(&mut self) -> (r: Result<Vec<Token>, char>)
        ensures
            match r {
                Ok(toks) => lex_from(old(self).text@, old(self).pos as int) == Some(
                    token_views(toks@),
                ),
                Err(c) => lex_from(old(self).text@, old(self).pos as int) is None && c
                    == first_bad(old(self).text@, old(self).pos as int),
            },
    {
        let ghost s = self.text@;
        let ghost p0 = self.pos as int;
        let mut tokens: Vec<Token> = Vec::new();
        if self.pos >= self.text.len() {
            proof {
                assert(lex_from(s, p0) == Some(Seq::<TokenS>::empty()));
                assert(token_views(tokens@) =~= Seq::<TokenS>::empty());
            }
            return Ok(tokens);
        }
        while self.pos < self.text.len()
            invariant
                self.text@ == s,
                old(self).text@ == s,
                p0 == old(self).pos as int,
                self.pos <= s.len(),
                first_bad(s, p0) == first_bad(s, self.pos as int),
                match lex_from(s, self.pos as int) {
                    Some(rest) => lex_from(s, p0) == Some(token_views(tokens@) + rest),
                    None => lex_from(s, p0) is None,
                },
            decreases s.len() - self.pos,
        {
            let ghost toks_pre = token_views(tokens@);
            match self.next_token() {
                Ok(t) => {
                    match t {
                        Token::Ignore => {},
                        t2 => {
                            let ghost tv = t2@;
                            tokens.push(t2);
                            proof {
                                assert(token_views(tokens@) =~= toks_pre.push(tv));
                                match lex_from(s, self.pos as int) {
                                    Some(rest) => {
                                        assert(toks_pre.push(tv) + rest =~= toks_pre + (seq![tv]
                                            + rest));
                                    },
                                    None => {},
                                }
                            }
                        },
                    }
                },
                Err(c) => {
                    return Err(c);
                },
            }
        }
        proof {
            assert(lex_from(s, self.pos as int) == Some(Seq::<TokenS>::empty()));
            assert(token_views(tokens@) + Seq::<TokenS>::empty() =~= token_views(tokens@));
        }
        Ok(tokens)
    }
}

/// A maximal alphanumeric scan reaches exactly the identifier end.
proof fn lemma_ident_scan(s: Seq<char>, from: int, upto: int)
    requires
        0 <= from <= upto <= s.len(),
        forall|k: int| from <= k < upto ==> unicode_alphanumeric(s[k]),
        upto < s.len() ==> !unicode_alphanumeric(s[upto]),
    ensures
        ident_end(s, from) == upto,
    decreases upto - from,
{
    if from < upto {
        assert(unicode_alphanumeric(s[from]));
        lemma_ident_scan(s, from + 1, upto);
    } else {
        if upto < s.len() {
            assert(!unicode_alphanumeric(s[upto]));
        }
    }
}

/// Joins two token-list results; any failure wins.
pub open spec fn opt_concat(
    x: Option<Seq<TokenS>>,
    y: Option<Seq<TokenS>>,
) -> Option<Seq<TokenS>> {
    match x {
        Some(tx) => match y {
            Some(ty) => Some(tx + ty),
            None => None,
        },
        None => None,
    }
}

/// An identifier scan past a prefix is the scan of the tail, shifted.
proof fn lemma_ident_end_shift(pre: Seq<char>, b: Seq<char>, j: int)
    requires
        0 <= j <= b.len(),
    ensures
        ident_end(pre + b, pre.len() + j) == pre.len() + ident_end(b, j),
    decreases b.len() - j,
{
    if j < b.len() {
        assert((pre + b)[pre.len() + j] == b[j]);
        if unicode_alphanumeric(b[j]) {
            lemma_ident_end_shift(pre, b, j + 1);
        }
    }
}

/// Lexing past a prefix is lexing the tail, token for token.
proof fn lemma_lex_shift(pre: Seq<char>, b: Seq<char>, j: int)
    requires
        0 <= j <= b.len(),
    ensures
        lex_from(pre + b, pre.len() + j) == lex_from(b, j),
        first_bad(pre + b, pre.len() + j) == first_bad(b, j),
    decreases b.len() - j,
{
    let s2 = pre + b;
    if j == b.len() {
        assert(lex_from(s2, pre.len() + j) == Some(Seq::<TokenS>::empty()));
        assert(lex_from(b, j) == Some(Seq::<TokenS>::empty()));
    } else {
        assert(s2[pre.len() + j] == b[j]);
        let c = b[j];
        match single_token(c) {
            Some(_) => {
                lemma_lex_shift(pre, b, j + 1);
            },
            None => {
                if ident_start(c) {
                    lemma_ident_end_shift(pre, b, j + 1);
                    lemma_ident_end_ge(b, j + 1);
                    let jb = ident_end(b, j + 1);
                    let jb2: int = if jb < j + 1 {
                        j + 1
                    } else if jb > b.len() {
                        b.len() as int
                    } else {
                        jb
                    };
                    assert(jb2 == jb);
                    let js = ident_end(s2, pre.len() + j + 1);
                    assert(js == pre.len() + jb);
                    assert(s2.subrange(pre.len() + j, pre.len() + jb2) =~= b.subrange(j, jb2));
                    lemma_lex_shift(pre, b, jb2);
                }
            },
        }
    }
}

/// An identifier scan stops where the prefix stops when what follows is
/// not alphanumeric.
proof fn lemma_ident_end_prefix(a: Seq<char>, w: char, b: Seq<char>, k: int)
    requires
        0 <= k <= a.len(),
        !unicode_alphanumeric(w),
    ensures
        ident_end(a + (seq![w] + b), k) == ident_end(a, k),
        ident_end(a, k) <= a.len(),
    decreases a.len() - k,
{
    let s2 = a + (seq![w] + b);
    if k < a.len() {
        assert(s2[k] == a[k]);
        if unicode_alphanumeric(a[k]) {
            lemma_ident_end_prefix(a, w, b, k + 1);
        }
    } else {
        assert(s2[k] == w);
    }
}

/// The text around an inserted whitespace character lexes as its two
/// parts lex on their own: the lexer is whitespace-invariant at token
/// boundaries.
pub proof fn lemma_whitespace_invariant(a: Seq<char>, w: char, b: Seq<char>, i: int)
    requires
        0 <= i <= a.len(),
        single_token(w) == Some(TokenS::Ignore),
        !unicode_alphanumeric(w),
    ensures
        lex_from(a + (seq![w] + b), i) == opt_concat(lex_from(a, i), lex_from(b, 0)),
    decreases a.len() - i,
{
    let s2 = a + (seq![w] + b);
    assert(s2.len() == a.len() + 1 + b.len());
    if i == a.len() {
        assert(s2[i] == w);
        assert(lex_from(s2, i) == lex_from(s2, i + 1));
        assert(s2 =~= (a + seq![w]) + b);
        lemma_lex_shift(a + seq![w], b, 0);
        assert(lex_from(s2, i + 1) == lex_from(b, 0));
        assert(lex_from(a, i) == Some(Seq::<TokenS>::empty()));
        match lex_from(b, 0) {
            Some(tb) => {
                assert(Seq::<TokenS>::empty() + tb =~= tb);
            },
            None => {},
        }
    } else {
        assert(s2[i] == a[i]);
        let c = a[i];
        match single_token(c) {
            Some(t) => {
                lemma_whitespace_invariant(a, w, b, i + 1);
                if t is Ignore {
                } else {
                    match lex_from(a, i + 1) {
                        Some(ta) => {
                            match lex_from(b, 0) {
                                Some(tb) => {
                                    assert((seq![t] + ta) + tb =~= seq![t] + (ta + tb));
                                },
                                None => {},
                            }
                        },
                        None => {},
                    }
                }
            },
            None => {
                if ident_start(c) {
                    lemma_ident_end_prefix(a, w, b, i + 1);
                    lemma_ident_end_ge(a, i + 1);
                    let ja = ident_end(a, i + 1);
                    let ja2: int = if ja < i + 1 {
                        i + 1
                    } else if ja > a.len() {
                        a.len() as int
                    } else {
                        ja
                    };
                    assert(ja2 == ja);
                    let js = ident_end(s2, i + 1);
                    assert(js == ja);
                    let js2: int = if js < i + 1 {
                        i + 1
                    } else if js > s2.len() {
                        s2.len() as int
                    } else {
                        js
                    };
                    assert(js2 == ja2);
                    assert(s2.subrange(i, ja2) =~= a.subrange(i, ja2));
                    lemma_whitespace_invariant(a, w, b, ja2);
                    let t = keyword_or_ident(a.subrange(i, ja2));
                    match lex_from(a, ja2) {
                        Some(ta) => {
                            match lex_from(b, 0) {
                                Some(tb) => {
                                    assert((seq![t] + ta) + tb =~= seq![t] + (ta + tb));
                                },
                                None => {},
                            }
                        },
                        None => {},
                    }
                }
            },
        }
    }
}

/// Inserting a space at a token boundary: the parts lex on their own.
pub proof fn lemma_space_insert(a: Seq<char>, b: Seq<char>, i: int)
    requires
        0 <= i <= a.len(),
    ensures
        lex_from(a + (seq![' '] + b), i) == opt_concat(lex_from(a, i), lex_from(b, 0)),
{
    assert(single_token(' ') == Some(TokenS::Ignore));
    assert(!unicode_alphanumeric(' '));
    lemma_whitespace_invariant(a, ' ', b, i);
}

} // verus!
