//! Boolean search queries over tags.
//!
//! Grammar (keywords in any case, `-term` is short for `NOT term`, operands
//! side by side are joined by an implicit AND):
//!
//! ```text
//! or     := and (OR and)*
//! and    := not (AND? not)*
//! not    := (NOT | '-') not | atom
//! atom   := '(' or ')' | TERM
//! ```
//!
//! A query of nothing but white space is `Expr::All`, which every photo
//! matches.
use vstd::prelude::*;

use crate::sql;
use crate::strmap::StrMap;
use crate::text;

verus! {

/// A parsed search query.
#[derive(Debug)]
pub enum Expr {
    All,
    Term(String),
    And(Box<Expr>, Box<Expr>),
    Or(Box<Expr>, Box<Expr>),
    Not(Box<Expr>),
}

/// What a parsed search query says, with its terms as sequences of characters.
pub enum Query {
    All,
    Term(Seq<char>),
    And(Box<Query>, Box<Query>),
    Or(Box<Query>, Box<Query>),
    Not(Box<Query>),
}

impl Expr {
    /// What the expression says.
    pub open spec fn query(&self) -> Query
        decreases self,
    {
        match self {
            Expr::All => Query::All,
            Expr::Term(t) => Query::Term(t@),
            Expr::And(a, b) => Query::And(Box::new(a.query()), Box::new(b.query())),
            Expr::Or(a, b) => Query::Or(Box::new(a.query()), Box::new(b.query())),
            Expr::Not(a) => Query::Not(Box::new(a.query())),
        }
    }
}

impl Clone for Expr {
    fn clone(&self) -> (r: Self)
        ensures
            r == *self,
        decreases self,
    {
        match self {
            Expr::All => Expr::All,
            Expr::Term(t) => Expr::Term(t.clone()),
            Expr::And(a, b) => Expr::And(Box::new((&**a).clone()), Box::new((&**b).clone())),
            Expr::Or(a, b) => Expr::Or(Box::new((&**a).clone()), Box::new((&**b).clone())),
            Expr::Not(a) => Expr::Not(Box::new((&**a).clone())),
        }
    }
}

/// A word or sign of a search query.
#[derive(Debug)]
pub enum Token {
    LParen,
    RParen,
    And,
    Or,
    Not,
    Minus,
    Term(String),
}

impl Clone for Token {
    fn clone(&self) -> (r: Self)
        ensures
            r == *self,
    {
        match self {
            Token::LParen => Token::LParen,
            Token::RParen => Token::RParen,
            Token::And => Token::And,
            Token::Or => Token::Or,
            Token::Not => Token::Not,
            Token::Minus => Token::Minus,
            Token::Term(t) => Token::Term(t.clone()),
        }
    }
}

/// A token with its term as a sequence of characters.
pub enum Tok {
    LParen,
    RParen,
    And,
    Or,
    Not,
    Minus,
    Term(Seq<char>),
}

impl Token {
    /// What the token says.
    pub open spec fn tok(&self) -> Tok {
        match self {
            Token::LParen => Tok::LParen,
            Token::RParen => Tok::RParen,
            Token::And => Tok::And,
            Token::Or => Tok::Or,
            Token::Not => Tok::Not,
            Token::Minus => Tok::Minus,
            Token::Term(t) => Tok::Term(t@),
        }
    }
}

/// What a list of tokens says.
pub open spec fn toks(v: Seq<Token>) -> Seq<Tok> {
    v.map_values(|t: Token| t.tok())
}

/// The outcome of cutting a text into tokens.
pub enum Lexed {
    Tokens(Seq<Tok>),
    Failed(Seq<char>),
}

/// `rest` with the tokens `front` before it.
pub open spec fn prefixed(front: Seq<Tok>, rest: Lexed) -> Lexed {
    match rest {
        Lexed::Tokens(ts) => Lexed::Tokens(front + ts),
        Lexed::Failed(m) => Lexed::Failed(m),
    }
}

/// Whether `c` can stand inside a word.
pub open spec fn in_word(c: char) -> bool {
    !text::is_space(c) && c != '(' && c != ')' && c != '"'
}

/// The length of the run of word characters at the front of `s`.
pub open spec fn word_len(s: Seq<char>) -> int
    decreases s.len(),
{
    if s.len() == 0 || !in_word(s[0]) {
        0
    } else {
        1 + word_len(s.skip(1))
    }
}

/// A run of word characters is part of the text, and not empty where the text
/// begins with a word character.
pub proof fn lemma_word_len(s: Seq<char>)
    ensures
        0 <= word_len(s) <= s.len(),
        s.len() > 0 && in_word(s[0]) ==> word_len(s) > 0,
    decreases s.len(),
{
    if s.len() > 0 && in_word(s[0]) {
        lemma_word_len(s.skip(1));
    }
}

/// The tokens that a run of word characters stands for: a keyword in any case,
/// a lone minus, a minus with the term behind it, or a term.
pub open spec fn word_tokens(w: Seq<char>) -> Seq<Tok> {
    if text::same_ascii(w, "and"@) {
        seq![Tok::And]
    } else if text::same_ascii(w, "or"@) {
        seq![Tok::Or]
    } else if text::same_ascii(w, "not"@) {
        seq![Tok::Not]
    } else if w == "-"@ {
        seq![Tok::Minus]
    } else if text::begins(w, "-"@) {
        seq![Tok::Minus, Tok::Term(w.skip(1))]
    } else {
        seq![Tok::Term(w)]
    }
}

/// The tokens of a text: parentheses, quoted terms, and words, with white space
/// between them left out.
pub open spec fn lex(s: Seq<char>) -> Lexed
    decreases s.len(),
{
    if s.len() == 0 {
        Lexed::Tokens(Seq::empty())
    } else if text::is_space(s[0]) {
        lex(s.skip(1))
    } else if s[0] == '(' {
        prefixed(seq![Tok::LParen], lex(s.skip(1)))
    } else if s[0] == ')' {
        prefixed(seq![Tok::RParen], lex(s.skip(1)))
    } else if s[0] == '"' {
        let inner = s.skip(1);
        let k = text::first_at(inner, '"');
        if k >= inner.len() {
            Lexed::Failed("unterminated quoted term in search query"@)
        } else if k <= 0 {
            Lexed::Failed("empty quoted term in search query"@)
        } else {
            prefixed(seq![Tok::Term(inner.take(k))], lex(inner.skip(k + 1)))
        }
    } else {
        proof {
            lemma_word_len(s);
        }
        prefixed(word_tokens(s.take(word_len(s))), lex(s.skip(word_len(s))))
    }
}

proof fn lemma_prefixed(a: Seq<Tok>, b: Seq<Tok>, rest: Lexed)
    ensures
        prefixed(a, prefixed(b, rest)) == prefixed(a + b, rest),
{
    match rest {
        Lexed::Tokens(ts) => {
            assert(a + (b + ts) =~= (a + b) + ts);
        },
        Lexed::Failed(m) => {},
    }
}

/// The index where the run of word characters that begins at `from` ends.
fn word_end(cs: &Vec<char>, from: usize) -> (r: usize)
    requires
        from <= cs.len(),
    ensures
        from <= r <= cs.len(),
        r == from + word_len(cs@.skip(from as int)),
{
    let mut i: usize = from;
    while i < cs.len() && !text::space(cs[i]) && cs[i] != '(' && cs[i] != ')' && cs[i] != '"'
        invariant
            from <= i <= cs.len(),
            from + word_len(cs@.skip(from as int)) == i + word_len(cs@.skip(i as int)),
        decreases cs.len() - i,
    {
        assert(cs@.skip(i as int).skip(1) == cs@.skip(i + 1));
        i = i + 1;
    }
    i
}

/// The tokens that `word` stands for.
fn tokens_of_word(word: String) -> (r: Vec<Token>)
    ensures
        toks(r@) == word_tokens(word@),
{
    let mut out: Vec<Token> = Vec::new();
    proof {
        reveal_strlit("-");
    }
    if text::same_ignoring_case(word.as_str(), "and") {
        out.push(Token::And);
    } else if text::same_ignoring_case(word.as_str(), "or") {
        out.push(Token::Or);
    } else if text::same_ignoring_case(word.as_str(), "not") {
        out.push(Token::Not);
    } else if text::same_text(word.as_str(), "-") {
        out.push(Token::Minus);
    } else if let Some(rest) = text::after_prefix(word.as_str(), "-") {
        out.push(Token::Minus);
        out.push(Token::Term(rest.to_owned()));
    } else {
        out.push(Token::Term(word));
    }
    assert(toks(out@) =~= word_tokens(word@));
    out
}

/// Cuts a query into tokens.
pub fn tokenize(input: &str) -> (r: Result<Vec<Token>, String>)
    ensures
        match r {
            Ok(v) => lex(input@) == Lexed::Tokens(toks(v@)),
            Err(e) => lex(input@) == Lexed::Failed(e@),
        },
{
    let cs = text::chars_of(input);
    let mut tokens: Vec<Token> = Vec::new();
    let mut i: usize = 0;
    assert(cs@.skip(0) == cs@);
    proof {
        assert(toks(tokens@) =~= Seq::<Tok>::empty());
        match lex(cs@) {
            Lexed::Tokens(ts) => {
                assert(toks(tokens@) + ts =~= ts);
            },
            Lexed::Failed(m) => {},
        }
    }
    while i < cs.len()
        invariant
            cs@ == input@,
            i <= cs.len(),
            lex(input@) == prefixed(toks(tokens@), lex(cs@.skip(i as int))),
        decreases cs.len() - i,
    {
        let c: char = cs[i];
        let ghost before = toks(tokens@);
        let ghost rest = cs@.skip(i as int);
        assert(rest.skip(1) == cs@.skip(i + 1));
        if text::space(c) {
            i = i + 1;
        } else if c == '(' {
            tokens.push(Token::LParen);
            proof {
                lemma_prefixed(before, seq![Tok::LParen], lex(cs@.skip(i + 1)));
                assert(toks(tokens@) =~= before + seq![Tok::LParen]);
            }
            i = i + 1;
        } else if c == ')' {
            tokens.push(Token::RParen);
            proof {
                lemma_prefixed(before, seq![Tok::RParen], lex(cs@.skip(i + 1)));
                assert(toks(tokens@) =~= before + seq![Tok::RParen]);
            }
            i = i + 1;
        } else if c == '"' {
            let k: usize = text::find_from(&cs, i + 1, '"');
            let ghost inner = rest.skip(1);
            if k >= cs.len() {
                return Err("unterminated quoted term in search query".to_owned());
            }
            if k == i + 1 {
                return Err("empty quoted term in search query".to_owned());
            }
            let s = text::string_of(&cs, i + 1, k);
            proof {
                assert(s@ =~= inner.take(k - i - 1));
                assert(inner.skip(k - i) =~= cs@.skip(k + 1));
                lemma_prefixed(before, seq![Tok::Term(s@)], lex(cs@.skip(k + 1)));
            }
            tokens.push(Token::Term(s));
            assert(toks(tokens@) =~= before + seq![Tok::Term(s@)]);
            i = k + 1;
        } else {
            let end: usize = word_end(&cs, i);
            proof {
                lemma_word_len(rest);
            }
            let word = text::string_of(&cs, i, end);
            proof {
                assert(word@ =~= rest.take(end - i));
                assert(rest.skip(end - i) =~= cs@.skip(end as int));
                lemma_prefixed(before, word_tokens(word@), lex(cs@.skip(end as int)));
            }
            let ghost w = word@;
            let mut found = tokens_of_word(word);
            let ghost f = found@;
            let ghost t0 = tokens@;
            tokens.append(&mut found);
            proof {
                assert(tokens@ == t0 + f);
                assert(toks(tokens@) =~= before + toks(f));
            }
            i = end;
        }
    }
    proof {
        assert(toks(tokens@) + Seq::<Tok>::empty() =~= toks(tokens@));
    }
    Ok(tokens)
}

/// The outcome of parsing from some token on: what was read and the index
/// behind it, or a message.
pub enum Parsed {
    Done(Query, int),
    Failed(Seq<char>),
}

/// The token at index `i`.
pub open spec fn tok_at(t: Seq<Tok>, i: int) -> Option<Tok> {
    if 0 <= i < t.len() {
        Some(t[i])
    } else {
        None
    }
}

/// Whether an operand can begin with this token.
pub open spec fn starts_operand(t: Option<Tok>) -> bool {
    t matches Some(k) && (k is Term || k is Not || k is Minus || k is LParen)
}

/// The name of a token in messages.
pub open spec fn tok_name(t: Tok) -> Seq<char> {
    match t {
        Tok::LParen => "LParen"@,
        Tok::RParen => "RParen"@,
        Tok::And => "And"@,
        Tok::Or => "Or"@,
        Tok::Not => "Not"@,
        Tok::Minus => "Minus"@,
        Tok::Term(s) => "Term"@,
    }
}

/// Reads an `atom` at `i`.
pub open spec fn read_atom(t: Seq<Tok>, i: int) -> Parsed
    decreases t.len() - i, 0int,
{
    match tok_at(t, i) {
        Some(Tok::LParen) => match read_or(t, i + 1) {
            Parsed::Done(q, j) => if tok_at(t, j) == Some(Tok::RParen) {
                Parsed::Done(q, j + 1)
            } else {
                Parsed::Failed("expected closing parenthesis in search query"@)
            },
            Parsed::Failed(m) => Parsed::Failed(m),
        },
        Some(Tok::Term(w)) => Parsed::Done(Query::Term(w), i + 1),
        Some(k) => Parsed::Failed("unexpected token in search query: "@ + tok_name(k)),
        None => Parsed::Failed("expected a search term"@),
    }
}

/// Reads a `not` at `i`.
pub open spec fn read_not(t: Seq<Tok>, i: int) -> Parsed
    decreases t.len() - i, 1int,
{
    if tok_at(t, i) == Some(Tok::Not) || tok_at(t, i) == Some(Tok::Minus) {
        match read_not(t, i + 1) {
            Parsed::Done(q, j) => Parsed::Done(Query::Not(Box::new(q)), j),
            Parsed::Failed(m) => Parsed::Failed(m),
        }
    } else {
        read_atom(t, i)
    }
}

/// Reads what follows in an `and` of which `left` was read up to `i`.
pub open spec fn read_and_rest(t: Seq<Tok>, left: Query, i: int) -> Parsed
    decreases t.len() - i, 2int,
{
    let next = if tok_at(t, i) == Some(Tok::And) {
        i + 1
    } else {
        i
    };
    if tok_at(t, i) == Some(Tok::And) || starts_operand(tok_at(t, i)) {
        match read_not(t, next) {
            Parsed::Done(q, j) => if i < j <= t.len() {
                read_and_rest(t, Query::And(Box::new(left), Box::new(q)), j)
            } else {
                arbitrary()
            },
            Parsed::Failed(m) => Parsed::Failed(m),
        }
    } else {
        Parsed::Done(left, i)
    }
}

/// Reads an `and` at `i`.
pub open spec fn read_and(t: Seq<Tok>, i: int) -> Parsed
    decreases t.len() - i, 3int,
{
    match read_not(t, i) {
        Parsed::Done(q, j) => if i < j <= t.len() {
            read_and_rest(t, q, j)
        } else {
            arbitrary()
        },
        Parsed::Failed(m) => Parsed::Failed(m),
    }
}

/// Reads what follows in an `or` of which `left` was read up to `i`.
pub open spec fn read_or_rest(t: Seq<Tok>, left: Query, i: int) -> Parsed
    decreases t.len() - i, 4int,
{
    if tok_at(t, i) == Some(Tok::Or) {
        match read_and(t, i + 1) {
            Parsed::Done(q, j) => if i < j <= t.len() {
                read_or_rest(t, Query::Or(Box::new(left), Box::new(q)), j)
            } else {
                arbitrary()
            },
            Parsed::Failed(m) => Parsed::Failed(m),
        }
    } else {
        Parsed::Done(left, i)
    }
}

/// Reads an `or` at `i`.
pub open spec fn read_or(t: Seq<Tok>, i: int) -> Parsed
    decreases t.len() - i, 5int,
{
    match read_and(t, i) {
        Parsed::Done(q, j) => if i < j <= t.len() {
            read_or_rest(t, q, j)
        } else {
            arbitrary()
        },
        Parsed::Failed(m) => Parsed::Failed(m),
    }
}

/// The outcome of parsing a whole query text.
pub open spec fn parse_text(s: Seq<char>) -> Result<Query, Seq<char>> {
    match lex(text::trimmed(s)) {
        Lexed::Failed(m) => Err(m),
        Lexed::Tokens(t) => if t.len() == 0 {
            Ok(Query::All)
        } else {
            match read_or(t, 0) {
                Parsed::Failed(m) => Err(m),
                Parsed::Done(q, j) => if j == t.len() {
                    Ok(q)
                } else {
                    Err("unexpected trailing input in search query"@)
                },
            }
        },
    }
}

/// Whether `r` is the outcome `p`, read from token `from` on by a parser over
/// `t` that now stands at `pos`.
spec fn agrees(r: Result<Expr, String>, p: Parsed, from: int, pos: int, t: Seq<Tok>) -> bool {
    match r {
        Ok(e) => p == Parsed::Done(e.query(), pos) && from < pos <= t.len(),
        Err(m) => p == Parsed::Failed(m@) && (from <= t.len() ==> from <= pos <= t.len()),
    }
}

struct Parser {
    tokens: Vec<Token>,
    pos: usize,
}

impl Parser {
    spec fn toks(&self) -> Seq<Tok> {
        toks(self.tokens@)
    }

    fn peek(&self) -> (r: Option<&Token>)
        ensures
            r is Some <==> self.pos < self.tokens.len(),
            r matches Some(t) ==> tok_at(self.toks(), self.pos as int) == Some(t.tok()),
            r is None ==> tok_at(self.toks(), self.pos as int) is None,
    {
        if self.pos < self.tokens.len() {
            Some(&self.tokens[self.pos])
        } else {
            None
        }
    }

    fn advance(&mut self) -> (r: Option<Token>)
        ensures
            final(self).tokens == old(self).tokens,
            r is Some <==> old(self).pos < old(self).tokens.len(),
            r matches Some(t) ==> tok_at(old(self).toks(), old(self).pos as int) == Some(t.tok()),
            r is None ==> tok_at(old(self).toks(), old(self).pos as int) is None,
            final(self).pos == (if r is Some {
                old(self).pos + 1
            } else {
                old(self).pos as int
            }),
    {
        if self.pos < self.tokens.len() {
            let t = self.tokens[self.pos].clone();
            self.pos = self.pos + 1;
            Some(t)
        } else {
            None
        }
    }

    // Operands side by side without AND or OR between them are joined by an
    // implicit AND: `cats dogs` is `cats AND dogs`.
    fn can_start_operand(&self) -> (r: bool)
        ensures
            r == starts_operand(tok_at(self.toks(), self.pos as int)),
    {
        matches!(
            self.peek(),
            Some(Token::Term(_)) | Some(Token::Not) | Some(Token::Minus) | Some(Token::LParen)
        )
    }

    fn parse_or(&mut self) -> (r: Result<Expr, String>)
        ensures
            final(self).tokens == old(self).tokens,
            agrees(
                r,
                read_or(old(self).toks(), old(self).pos as int),
                old(self).pos as int,
                final(self).pos as int,
                old(self).toks(),
            ),
            r is Ok ==> tok_at(old(self).toks(), final(self).pos as int) is None || tok_at(
                old(self).toks(),
                final(self).pos as int,
            ) == Some(Tok::RParen),
        decreases old(self).tokens.len() - old(self).pos, 5int,
    {
        let ghost t = self.toks();
        let ghost start = self.pos as int;
        let mut left = self.parse_and()?;
        while matches!(self.peek(), Some(Token::Or))
            invariant
                self.tokens == old(self).tokens,
                t == self.toks(),
                t == old(self).toks(),
                start == old(self).pos,
                start < self.pos <= self.tokens.len(),
                read_or(t, start) == read_or_rest(t, left.query(), self.pos as int),
                !continues_and(tok_at(t, self.pos as int)),
            decreases self.tokens.len() - self.pos,
        {
            self.advance();
            let right = self.parse_and()?;
            left = Expr::Or(Box::new(left), Box::new(right));
        }
        Ok(left)
    }

    fn parse_and(&mut self) -> (r: Result<Expr, String>)
        ensures
            final(self).tokens == old(self).tokens,
            agrees(
                r,
                read_and(old(self).toks(), old(self).pos as int),
                old(self).pos as int,
                final(self).pos as int,
                old(self).toks(),
            ),
            r is Ok ==> !continues_and(tok_at(old(self).toks(), final(self).pos as int)),
        decreases old(self).tokens.len() - old(self).pos, 3int,
    {
        let ghost t = self.toks();
        let ghost start = self.pos as int;
        let mut left = self.parse_not()?;
        loop
            invariant
                self.tokens == old(self).tokens,
                t == self.toks(),
                t == old(self).toks(),
                start == old(self).pos,
                start < self.pos <= self.tokens.len(),
                read_and(t, start) == read_and_rest(t, left.query(), self.pos as int),
            ensures
                !(tok_at(t, self.pos as int) == Some(Tok::And)),
                !starts_operand(tok_at(t, self.pos as int)),
            decreases self.tokens.len() - self.pos,
        {
            if matches!(self.peek(), Some(Token::And)) {
                self.advance();
            } else if self.can_start_operand() {
                // an implicit AND uses up no token
            } else {
                break;
            }
            let right = self.parse_not()?;
            left = Expr::And(Box::new(left), Box::new(right));
        }
        Ok(left)
    }

    fn parse_not(&mut self) -> (r: Result<Expr, String>)
        ensures
            final(self).tokens == old(self).tokens,
            agrees(
                r,
                read_not(old(self).toks(), old(self).pos as int),
                old(self).pos as int,
                final(self).pos as int,
                old(self).toks(),
            ),
        decreases old(self).tokens.len() - old(self).pos, 1int,
    {
        if matches!(self.peek(), Some(Token::Not) | Some(Token::Minus)) {
            self.advance();
            let inner = self.parse_not()?;
            return Ok(Expr::Not(Box::new(inner)));
        }
        self.parse_atom()
    }

    fn parse_atom(&mut self) -> (r: Result<Expr, String>)
        ensures
            final(self).tokens == old(self).tokens,
            agrees(
                r,
                read_atom(old(self).toks(), old(self).pos as int),
                old(self).pos as int,
                final(self).pos as int,
                old(self).toks(),
            ),
        decreases old(self).tokens.len() - old(self).pos, 0int,
    {
        match self.advance() {
            Some(Token::LParen) => {
                let inner = self.parse_or()?;
                match self.advance() {
                    Some(Token::RParen) => Ok(inner),
                    _ => Err("expected closing parenthesis in search query".to_owned()),
                }
            },
            Some(Token::Term(t)) => Ok(Expr::Term(t)),
            Some(other) => {
                let mut m = "unexpected token in search query: ".to_owned();
                m.append(token_name(&other));
                Err(m)
            },
            None => Err("expected a search term".to_owned()),
        }
    }
}

/// The name of a token in messages.
fn token_name(t: &Token) -> (r: &'static str)
    ensures
        r@ == tok_name(t.tok()),
{
    match t {
        Token::LParen => "LParen",
        Token::RParen => "RParen",
        Token::And => "And",
        Token::Or => "Or",
        Token::Not => "Not",
        Token::Minus => "Minus",
        Token::Term(_) => "Term",
    }
}

/// Parses a search query. A query of nothing but white space matches every
/// photo.
pub fn parse(input: &str) -> (r: Result<Expr, String>)
    ensures
        match r {
            Ok(e) => parse_text(input@) == Ok::<Query, Seq<char>>(e.query()),
            Err(m) => parse_text(input@) == Err::<Query, Seq<char>>(m@),
        },
{
    let trimmed = text::trim(input);
    if trimmed.is_empty() {
        return Ok(Expr::All);
    }
    let tokens = tokenize(trimmed)?;
    if tokens.is_empty() {
        return Ok(Expr::All);
    }
    let mut parser = Parser { tokens, pos: 0 };
    let expr = parser.parse_or()?;
    if parser.pos != parser.tokens.len() {
        return Err("unexpected trailing input in search query".to_owned());
    }
    Ok(expr)
}

/// Whether the tokens `t` are an `atom` of the grammar that says `q`.
pub open spec fn is_atom(q: Query, t: Seq<Tok>) -> bool
    decreases t.len(), 0int,
{
    ||| t.len() == 1 && t[0] is Term && q == Query::Term(t[0]->Term_0)
    ||| t.len() >= 2 && t[0] == Tok::LParen && t.last() == Tok::RParen && is_or(q, t.subrange(1, t.len() - 1))
}

/// Whether the tokens `t` are a `not` of the grammar that says `q`.
pub open spec fn is_not(q: Query, t: Seq<Tok>) -> bool
    decreases t.len(), 1int,
{
    ||| is_atom(q, t)
    ||| t.len() >= 1 && (t[0] == Tok::Not || t[0] == Tok::Minus) && q is Not && is_not(*q->Not_0, t.skip(1))
}

/// Whether the tokens `t` are an `and` of the grammar that says `q`, operators
/// grouping to the left.
pub open spec fn is_and(q: Query, t: Seq<Tok>) -> bool
    decreases t.len(), 2int,
{
    ||| is_not(q, t)
    ||| q is And && exists|k: int| #![trigger t.take(k)] 0 < k < t.len() && and_cut(q, t, k)
}

/// Whether an `and` that says `q` falls into an `and` of the first `k` tokens,
/// AND or nothing, and a `not`.
pub open spec fn and_cut(q: Query, t: Seq<Tok>, k: int) -> bool
    decreases t.len(), 1int,
    when 0 < k < t.len()
{
    &&& is_and(*q->And_0, t.take(k))
    &&& is_not(*q->And_1, t.skip(k)) || (t[k] == Tok::And && is_not(*q->And_1, t.skip(k + 1)))
}

/// Whether the tokens `t` are an `or` of the grammar that says `q`, operators
/// grouping to the left.
pub open spec fn is_or(q: Query, t: Seq<Tok>) -> bool
    decreases t.len(), 4int,
{
    ||| is_and(q, t)
    ||| q is Or && exists|k: int| #![trigger t.take(k)] 0 < k < t.len() && or_cut(q, t, k)
}

/// Whether an `or` that says `q` falls into an `or` of the first `k` tokens,
/// OR, and an `and`.
pub open spec fn or_cut(q: Query, t: Seq<Tok>, k: int) -> bool
    decreases t.len(), 3int,
    when 0 < k < t.len()
{
    &&& is_or(*q->Or_0, t.take(k))
    &&& t[k] == Tok::Or
    &&& is_and(*q->Or_1, t.skip(k + 1))
}

proof fn lemma_sound_atom(t: Seq<Tok>, i: int)
    requires
        0 <= i,
    ensures
        read_atom(t, i) matches Parsed::Done(q, j) ==> i < j <= t.len() && is_atom(q, t.subrange(i, j)),
    decreases t.len() - i, 0int,
{
    if i < t.len() {
        match t[i] {
            Tok::LParen => {
                lemma_sound_or(t, i + 1);
                if let Parsed::Done(q, j) = read_or(t, i + 1) {
                    if tok_at(t, j) == Some(Tok::RParen) {
                        let part = t.subrange(i, j + 1);
                        assert(part.subrange(1, part.len() - 1) =~= t.subrange(i + 1, j));
                        assert(is_atom(q, part));
                    }
                }
            },
            Tok::Term(w) => {
                assert(is_atom(Query::Term(w), t.subrange(i, i + 1)));
            },
            _ => {},
        }
    }
}

proof fn lemma_sound_not(t: Seq<Tok>, i: int)
    requires
        0 <= i,
    ensures
        read_not(t, i) matches Parsed::Done(q, j) ==> i < j <= t.len() && is_not(q, t.subrange(i, j)),
    decreases t.len() - i, 1int,
{
    if tok_at(t, i) == Some(Tok::Not) || tok_at(t, i) == Some(Tok::Minus) {
        lemma_sound_not(t, i + 1);
        if let Parsed::Done(q, j) = read_not(t, i + 1) {
            assert(t.subrange(i, j).skip(1) =~= t.subrange(i + 1, j));
            assert(is_not(Query::Not(Box::new(q)), t.subrange(i, j)));
        }
    } else {
        lemma_sound_atom(t, i);
    }
}

proof fn lemma_sound_and_rest(t: Seq<Tok>, left: Query, start: int, i: int)
    requires
        0 <= start < i <= t.len(),
        is_and(left, t.subrange(start, i)),
    ensures
        read_and_rest(t, left, i) matches Parsed::Done(q, j) ==> i <= j <= t.len() && is_and(q, t.subrange(start, j)),
    decreases t.len() - i, 2int,
{
    let explicit = tok_at(t, i) == Some(Tok::And);
    let next = if explicit {
        i + 1
    } else {
        i
    };
    if explicit || starts_operand(tok_at(t, i)) {
        lemma_sound_not(t, next);
        if let Parsed::Done(q, j) = read_not(t, next) {
            let both = Query::And(Box::new(left), Box::new(q));
            let part = t.subrange(start, j);
            let k = i - start;
            assert(part.take(k) =~= t.subrange(start, i));
            if explicit {
                assert(part.skip(k + 1) =~= t.subrange(i + 1, j));
            } else {
                assert(part.skip(k) =~= t.subrange(i, j));
            }
            assert(and_cut(both, part, k));
            assert(is_and(both, part));
            lemma_sound_and_rest(t, both, start, j);
        }
    }
}

proof fn lemma_sound_and(t: Seq<Tok>, i: int)
    requires
        0 <= i,
    ensures
        read_and(t, i) matches Parsed::Done(q, j) ==> i < j <= t.len() && is_and(q, t.subrange(i, j)),
    decreases t.len() - i, 3int,
{
    lemma_sound_not(t, i);
    if let Parsed::Done(q, j) = read_not(t, i) {
        lemma_sound_and_rest(t, q, i, j);
    }
}

proof fn lemma_sound_or_rest(t: Seq<Tok>, left: Query, start: int, i: int)
    requires
        0 <= start < i <= t.len(),
        is_or(left, t.subrange(start, i)),
    ensures
        read_or_rest(t, left, i) matches Parsed::Done(q, j) ==> i <= j <= t.len() && is_or(q, t.subrange(start, j)),
    decreases t.len() - i, 4int,
{
    if tok_at(t, i) == Some(Tok::Or) {
        lemma_sound_and(t, i + 1);
        if let Parsed::Done(q, j) = read_and(t, i + 1) {
            let both = Query::Or(Box::new(left), Box::new(q));
            let part = t.subrange(start, j);
            let k = i - start;
            assert(part.take(k) =~= t.subrange(start, i));
            assert(part.skip(k + 1) =~= t.subrange(i + 1, j));
            assert(or_cut(both, part, k));
            assert(is_or(both, part));
            lemma_sound_or_rest(t, both, start, j);
        }
    }
}

proof fn lemma_sound_or(t: Seq<Tok>, i: int)
    requires
        0 <= i,
    ensures
        read_or(t, i) matches Parsed::Done(q, j) ==> i < j <= t.len() && is_or(q, t.subrange(i, j)),
    decreases t.len() - i, 5int,
{
    lemma_sound_and(t, i);
    if let Parsed::Done(q, j) = read_and(t, i) {
        lemma_sound_or_rest(t, q, i, j);
    }
}

proof fn lemma_first_token(q: Query, t: Seq<Tok>)
    ensures
        is_not(q, t) ==> t.len() >= 1 && starts_operand(Some(t[0])),
{
    if is_atom(q, t) {
        assert(t.len() >= 1);
    }
}

/// Whether an `and` goes on at this token.
pub open spec fn continues_and(t: Option<Tok>) -> bool {
    t == Some(Tok::And) || starts_operand(t)
}

proof fn lemma_complete_atom(q: Query, t: Seq<Tok>, i: int, n: int)
    requires
        0 <= i,
        0 <= n,
        i + n <= t.len(),
        is_atom(q, t.subrange(i, i + n)),
    ensures
        n > 0,
        read_atom(t, i) == Parsed::Done(q, i + n),
    decreases n, 0int,
{
    let part = t.subrange(i, i + n);
    assert(part[0] == t[i]);
    if !(n == 1 && part[0] is Term && q == Query::Term(part[0]->Term_0)) {
        assert(part.subrange(1, n - 1) =~= t.subrange(i + 1, i + n - 1));
        assert(part.last() == t[i + n - 1]);
        lemma_complete_or(q, t, i + 1, n - 2);
        assert(read_or_rest(t, q, i + n - 1) == Parsed::Done(q, i + n - 1));
    }
}

proof fn lemma_complete_not(q: Query, t: Seq<Tok>, i: int, n: int)
    requires
        0 <= i,
        0 <= n,
        i + n <= t.len(),
        is_not(q, t.subrange(i, i + n)),
    ensures
        n > 0,
        read_not(t, i) == Parsed::Done(q, i + n),
    decreases n, 1int,
{
    let part = t.subrange(i, i + n);
    if is_atom(q, part) {
        lemma_complete_atom(q, t, i, n);
        assert(part[0] == t[i]);
    } else {
        assert(part[0] == t[i]);
        assert(part.skip(1) =~= t.subrange(i + 1, i + n));
        lemma_complete_not(*q->Not_0, t, i + 1, n - 1);
    }
}

proof fn lemma_complete_and(q: Query, t: Seq<Tok>, i: int, n: int)
    requires
        0 <= i,
        0 <= n,
        i + n <= t.len(),
        is_and(q, t.subrange(i, i + n)),
    ensures
        n > 0,
        read_and(t, i) == read_and_rest(t, q, i + n),
    decreases n, 2int,
{
    let part = t.subrange(i, i + n);
    if is_not(q, part) {
        lemma_complete_not(q, t, i, n);
    } else {
        let k = choose|k: int| #![trigger part.take(k)] 0 < k < part.len() && and_cut(q, part, k);
        let a = *q->And_0;
        let b = *q->And_1;
        assert(part.take(k) =~= t.subrange(i, i + k));
        lemma_complete_and(a, t, i, k);
        assert(part[k] == t[i + k]);
        if is_not(b, part.skip(k)) {
            assert(part.skip(k) =~= t.subrange(i + k, i + n));
            lemma_first_token(b, part.skip(k));
            lemma_complete_not(b, t, i + k, n - k);
        } else {
            assert(part.skip(k + 1) =~= t.subrange(i + k + 1, i + n));
            lemma_complete_not(b, t, i + k + 1, n - k - 1);
        }
        assert(q == Query::And(Box::new(a), Box::new(b)));
    }
}

proof fn lemma_complete_or(q: Query, t: Seq<Tok>, i: int, n: int)
    requires
        0 <= i,
        0 <= n,
        i + n <= t.len(),
        is_or(q, t.subrange(i, i + n)),
        !continues_and(tok_at(t, i + n)),
    ensures
        n > 0,
        read_or(t, i) == read_or_rest(t, q, i + n),
    decreases n, 3int,
{
    let part = t.subrange(i, i + n);
    if is_and(q, part) {
        lemma_complete_and(q, t, i, n);
    } else {
        let k = choose|k: int| #![trigger part.take(k)] 0 < k < part.len() && or_cut(q, part, k);
        let a = *q->Or_0;
        let b = *q->Or_1;
        assert(part.take(k) =~= t.subrange(i, i + k));
        assert(part[k] == t[i + k]);
        lemma_complete_or(a, t, i, k);
        assert(part.skip(k + 1) =~= t.subrange(i + k + 1, i + n));
        lemma_complete_and(b, t, i + k + 1, n - k - 1);
        assert(q == Query::Or(Box::new(a), Box::new(b)));
    }
}

/// The parser accepts exactly the grammar: reading a whole list of tokens gives
/// `q` if and only if the tokens are an `or` that says `q`.
pub proof fn law_reads_the_grammar(t: Seq<Tok>, q: Query)
    ensures
        read_or(t, 0) == Parsed::Done(q, t.len() as int) <==> is_or(q, t),
{
    lemma_sound_or(t, 0);
    assert(t.subrange(0, t.len() as int) =~= t);
    if is_or(q, t) {
        lemma_complete_or(q, t, 0, t.len() as int);
    }
}

/// The grammar is unambiguous: a list of tokens says at most one thing.
pub proof fn law_grammar_unambiguous(t: Seq<Tok>, q1: Query, q2: Query)
    requires
        is_or(q1, t),
        is_or(q2, t),
    ensures
        q1 == q2,
{
    law_reads_the_grammar(t, q1);
    law_reads_the_grammar(t, q2);
}

/// A query text with tokens parses to `q` if and only if its tokens are an `or`
/// of the grammar that says `q`, and fails if they say nothing.
pub proof fn law_parse_follows_grammar(s: Seq<char>, t: Seq<Tok>)
    requires
        lex(text::trimmed(s)) == Lexed::Tokens(t),
        t.len() > 0,
    ensures
        forall|q: Query| parse_text(s) == Ok::<Query, Seq<char>>(q) <==> #[trigger] is_or(q, t),
        parse_text(s) is Err <==> !exists|q: Query| #[trigger] is_or(q, t),
{
    assert forall|q: Query| parse_text(s) == Ok::<Query, Seq<char>>(q) <==> #[trigger] is_or(q, t) by {
        law_reads_the_grammar(t, q);
    }
    if parse_text(s) is Ok {
        assert(is_or(parse_text(s)->Ok_0, t));
    }
}

proof fn lemma_no_all(t: Seq<Tok>)
    ensures
        !is_or(Query::All, t),
    decreases t.len(),
{
    if t.len() >= 2 {
        lemma_no_all(t.subrange(1, t.len() - 1));
    }
    assert(!is_atom(Query::All, t));
    assert(!is_not(Query::All, t));
    assert(!is_and(Query::All, t));
}

/// A query parses to the expression that every photo matches if and only if it
/// is nothing but white space.
pub proof fn law_blank_matches_all(s: Seq<char>)
    ensures
        parse_text(s) == Ok::<Query, Seq<char>>(Query::All) <==> forall|i: int|
            0 <= i < s.len() ==> text::is_space(#[trigger] s[i]),
{
    text::lemma_trimmed(s);
    let t = text::trimmed(s);
    if t.len() > 0 {
        lemma_word_len(t);
        match lex(t) {
            Lexed::Tokens(ts) => {
                assert(ts.len() > 0);
                lemma_no_all(ts);
                law_parse_follows_grammar(s, ts);
            },
            Lexed::Failed(m) => {},
        }
    }
}

/// Operands side by side mean the same as with AND between them.
pub proof fn law_juxtaposition_is_and(a: Seq<Tok>, qa: Query, b: Seq<Tok>, qb: Query)
    requires
        is_and(qa, a),
        is_not(qb, b),
    ensures
        is_and(Query::And(Box::new(qa), Box::new(qb)), a + b),
        is_and(Query::And(Box::new(qa), Box::new(qb)), a + seq![Tok::And] + b),
{
    let q = Query::And(Box::new(qa), Box::new(qb));
    let k = a.len() as int;
    lemma_first_token(qb, b);
    assert(a.subrange(0, k) =~= a);
    lemma_complete_and(qa, a, 0, k);
    let x = a + b;
    assert(x.take(k) =~= a);
    assert(x.skip(k) =~= b);
    assert(and_cut(q, x, k));
    let y = a + seq![Tok::And] + b;
    assert(y.take(k) =~= a);
    assert(y.skip(k + 1) =~= b);
    assert(y[k] == Tok::And);
    assert(and_cut(q, y, k));
}

/// A minus before an operand means the same as NOT before it.
pub proof fn law_minus_is_not(q: Query, t: Seq<Tok>)
    ensures
        is_not(q, seq![Tok::Minus] + t) == is_not(q, seq![Tok::Not] + t),
{
    let m = seq![Tok::Minus] + t;
    let n = seq![Tok::Not] + t;
    assert(m.skip(1) =~= t);
    assert(n.skip(1) =~= t);
    assert(m[0] == Tok::Minus);
    assert(n[0] == Tok::Not);
    assert(!is_atom(q, m));
    assert(!is_atom(q, n));
}

proof fn lemma_word_len_stops(a: Seq<char>, b: Seq<char>)
    requires
        b.len() > 0 ==> !in_word(b[0]),
    ensures
        word_len(a + b) == word_len(a),
    decreases a.len(),
{
    if a.len() == 0 {
        assert(a + b =~= b);
    } else if in_word(a[0]) {
        assert((a + b).skip(1) =~= a.skip(1) + b);
        lemma_word_len_stops(a.skip(1), b);
    }
}

/// The tokens of two texts, one after the other, are those of each, unless the
/// second goes on with a word of the first.
pub proof fn law_texts_are_cut_apart(a: Seq<char>, ta: Seq<Tok>, b: Seq<char>)
    requires
        lex(a) == Lexed::Tokens(ta),
        b.len() > 0 ==> !in_word(b[0]),
    ensures
        lex(a + b) == prefixed(ta, lex(b)),
    decreases a.len(),
{
    let both = a + b;
    if a.len() == 0 {
        assert(both =~= b);
        assert(ta =~= Seq::empty());
        if let Lexed::Tokens(tb) = lex(b) {
            assert(ta + tb =~= tb);
        }
    } else {
        let (front, n) = lemma_first_tokens(a, ta, b);
        let rest = a.skip(n);
        let tr = lex(rest)->Tokens_0;
        law_texts_are_cut_apart(rest, tr, b);
        lemma_prefixed(front, tr, lex(b));
    }
}

/// What a text begins with, cut off: its tokens, and its length. It is the same
/// where another text follows.
proof fn lemma_first_tokens(a: Seq<char>, ta: Seq<Tok>, b: Seq<char>) -> (r: (Seq<Tok>, int))
    requires
        a.len() > 0,
        lex(a) == Lexed::Tokens(ta),
        b.len() > 0 ==> !in_word(b[0]),
    ensures
        0 < r.1 <= a.len(),
        lex(a.skip(r.1)) is Tokens,
        ta == r.0 + lex(a.skip(r.1))->Tokens_0,
        lex(a + b) == prefixed(r.0, lex(a.skip(r.1) + b)),
{
    let both = a + b;
    let c = a[0];
    assert(both[0] == c);
    assert(both.skip(1) =~= a.skip(1) + b);
    if text::is_space(c) {
        let rest = lex(a.skip(1) + b);
        if let Lexed::Tokens(t) = rest {
            assert(Seq::<Tok>::empty() + t =~= t);
        }
        assert(Seq::<Tok>::empty() + ta =~= ta);
        (Seq::empty(), 1)
    } else if c == '(' {
        (seq![Tok::LParen], 1)
    } else if c == ')' {
        (seq![Tok::RParen], 1)
    } else if c == '"' {
        let inner = a.skip(1);
        let k = text::first_at(inner, '"');
        text::lemma_first_at(inner, '"');
        text::lemma_first_at_is(inner + b, '"', k);
        assert((inner + b).take(k) =~= inner.take(k));
        assert(inner.skip(k + 1) =~= a.skip(k + 2));
        assert((inner + b).skip(k + 1) =~= a.skip(k + 2) + b);
        (seq![Tok::Term(inner.take(k))], k + 2)
    } else {
        let n = word_len(a);
        lemma_word_len(a);
        lemma_word_len_stops(a, b);
        assert(both.take(n) =~= a.take(n));
        assert(both.skip(n) =~= a.skip(n) + b);
        (word_tokens(a.take(n)), n)
    }
}

proof fn lemma_lex_spaces(lead: Seq<char>, s: Seq<char>)
    requires
        forall|i: int| 0 <= i < lead.len() ==> text::is_space(#[trigger] lead[i]),
    ensures
        lex(lead + s) == lex(s),
    decreases lead.len(),
{
    if lead.len() == 0 {
        assert(lead + s =~= s);
    } else {
        let rest = lead.skip(1);
        assert((lead + s).skip(1) =~= rest + s);
        assert(text::is_space((lead + s)[0]));
        assert forall|i: int| 0 <= i < rest.len() implies text::is_space(#[trigger] rest[i]) by {
            assert(rest[i] == lead[i + 1]);
        }
        lemma_lex_spaces(rest, s);
    }
}

/// White space around a text changes none of its tokens.
proof fn lemma_lex_trimmed(s: Seq<char>, t: Seq<Tok>)
    requires
        lex(text::trimmed(s)) == Lexed::Tokens(t),
    ensures
        lex(s) == Lexed::Tokens(t),
{
    let p = |c: char| text::is_space(c);
    let front = text::strip_front(s, p);
    let core = text::strip_back(front, p);
    text::lemma_strip_front(s, p);
    text::lemma_strip_back(front, p);
    let lead = s.take(s.len() - front.len());
    let trail = front.skip(core.len() as int);
    assert(s =~= lead + front);
    assert(front =~= core + trail);
    assert forall|i: int| 0 <= i < lead.len() implies text::is_space(#[trigger] lead[i]) by {
        assert(p(s[i]));
    }
    assert forall|i: int| 0 <= i < trail.len() implies text::is_space(#[trigger] trail[i]) by {
        assert(p(front[core.len() + i]));
    }
    lemma_lex_spaces(lead, front);
    law_texts_are_cut_apart(core, t, trail);
    lemma_lex_spaces(trail, Seq::empty());
    assert(trail + Seq::<char>::empty() =~= trail);
    assert(t + Seq::<Tok>::empty() =~= t);
}

/// A text in parentheses.
pub open spec fn enclosed(s: Seq<char>) -> Seq<char> {
    seq!['('] + s + seq![')']
}

/// The tokens of a text in parentheses.
spec fn enclosed_tokens(s: Seq<char>) -> Seq<Tok> {
    seq![Tok::LParen] + lex(text::trimmed(s))->Tokens_0 + seq![Tok::RParen]
}

/// A query in parentheses is an `atom`, and anything may follow it.
proof fn lemma_lex_enclosed(s: Seq<char>, q: Query, behind: Seq<char>)
    requires
        parse_text(s) == Ok::<Query, Seq<char>>(q),
        q != Query::All,
    ensures
        is_atom(q, enclosed_tokens(s)),
        lex(enclosed(s) + behind) == prefixed(enclosed_tokens(s), lex(behind)),
{
    let inner = lex(text::trimmed(s))->Tokens_0;
    lemma_lex_trimmed(s, inner);
    law_parse_follows_grammar(s, inner);
    let t = enclosed_tokens(s);
    assert(t.subrange(1, t.len() - 1) =~= inner);
    let tail = seq![')'] + behind;
    assert(tail.skip(1) =~= behind);
    let whole = enclosed(s) + behind;
    assert(whole.skip(1) =~= s + tail);
    law_texts_are_cut_apart(s, inner, tail);
    lemma_prefixed(inner, seq![Tok::RParen], lex(behind));
    lemma_prefixed(seq![Tok::LParen], inner + seq![Tok::RParen], lex(behind));
    assert(seq![Tok::LParen] + (inner + seq![Tok::RParen]) =~= t);
}

/// The tokens of a query in parentheses at the end of a text.
proof fn lemma_lex_enclosed_end(s: Seq<char>, q: Query)
    requires
        parse_text(s) == Ok::<Query, Seq<char>>(q),
        q != Query::All,
    ensures
        is_atom(q, enclosed_tokens(s)),
        lex(enclosed(s)) == Lexed::Tokens(enclosed_tokens(s)),
{
    lemma_lex_enclosed(s, q, Seq::empty());
    assert(enclosed(s) + Seq::<char>::empty() =~= enclosed(s));
    assert(enclosed_tokens(s) + Seq::<Tok>::empty() =~= enclosed_tokens(s));
}

/// What a text says that neither begins nor ends with white space, by its tokens.
proof fn lemma_says(s: Seq<char>, t: Seq<Tok>, q: Query)
    requires
        text::is_trim(s),
        lex(s) == Lexed::Tokens(t),
        is_or(q, t),
    ensures
        parse_text(s) == Ok::<Query, Seq<char>>(q),
{
    text::lemma_trimmed(s);
    law_reads_the_grammar(t, q);
    lemma_sound_or(t, 0);
    law_parse_follows_grammar(s, t);
}

/// An `atom` is also a `not`, an `and` and an `or`.
proof fn lemma_atom(q: Query, t: Seq<Tok>)
    requires
        is_atom(q, t),
    ensures
        is_not(q, t),
        is_and(q, t),
        is_or(q, t),
{
    assert(is_not(q, t));
    assert(is_and(q, t));
}

proof fn lemma_or_of(a: Seq<Tok>, qa: Query, b: Seq<Tok>, qb: Query)
    requires
        is_or(qa, a),
        is_and(qb, b),
        a.len() > 0,
    ensures
        is_or(Query::Or(Box::new(qa), Box::new(qb)), a + seq![Tok::Or] + b),
{
    let q = Query::Or(Box::new(qa), Box::new(qb));
    let t = a + seq![Tok::Or] + b;
    let k = a.len() as int;
    assert(t.take(k) =~= a);
    assert(t.skip(k + 1) =~= b);
    assert(or_cut(q, t, k));
}

proof fn lemma_not_of(sign: Tok, q: Query, t: Seq<Tok>)
    requires
        sign == Tok::Not || sign == Tok::Minus,
        is_not(q, t),
    ensures
        is_or(Query::Not(Box::new(q)), seq![sign] + t),
{
    let n = Query::Not(Box::new(q));
    let whole = seq![sign] + t;
    assert(whole.skip(1) =~= t);
    assert(is_not(n, whole));
    assert(is_and(n, whole));
}

proof fn lemma_keywords()
    ensures
        word_tokens("AND"@) == seq![Tok::And],
        word_tokens("OR"@) == seq![Tok::Or],
        word_tokens("NOT"@) == seq![Tok::Not],
        word_tokens("-"@) == seq![Tok::Minus],
{
    reveal_strlit("AND");
    reveal_strlit("OR");
    reveal_strlit("NOT");
    reveal_strlit("-");
    reveal_strlit("and");
    reveal_strlit("or");
    reveal_strlit("not");
    assert(text::same_ascii("AND"@, "and"@));
    assert(!text::same_ascii("OR"@, "and"@) && text::same_ascii("OR"@, "or"@));
    assert(text::ascii_lower("NOT"@[0]) != text::ascii_lower("and"@[0]));
    assert(!text::same_ascii("NOT"@, "and"@) && !text::same_ascii("NOT"@, "or"@));
    assert(text::same_ascii("NOT"@, "not"@));
}

/// A query in parentheses says what it says without them.
pub proof fn law_parentheses_change_nothing(s: Seq<char>, q: Query)
    requires
        parse_text(s) == Ok::<Query, Seq<char>>(q),
        q != Query::All,
    ensures
        parse_text(enclosed(s)) == Ok::<Query, Seq<char>>(q),
{
    lemma_lex_enclosed_end(s, q);
    lemma_atom(q, enclosed_tokens(s));
    lemma_says(enclosed(s), enclosed_tokens(s), q);
}

/// The tokens of a word that stands before a parenthesis, with nothing or a space
/// between them.
proof fn lemma_lex_word(w: Seq<char>, gap: Seq<char>, behind: Seq<char>)
    requires
        w.len() > 0,
        forall|i: int| 0 <= i < w.len() ==> in_word(#[trigger] w[i]),
        gap.len() == 0 || gap == seq![' '],
        behind.len() > 0 && behind[0] == '(',
    ensures
        lex(w + gap + behind) == prefixed(word_tokens(w), lex(behind)),
{
    lemma_word_len_all(w);
    let tail = gap + behind;
    lemma_word_len_stops(w, tail);
    let s = w + gap + behind;
    assert(s =~= w + tail);
    assert(s[0] == w[0]);
    assert(s.take(w.len() as int) =~= w);
    assert(s.skip(w.len() as int) =~= tail);
    lemma_lex_spaces(gap, behind);
}

proof fn lemma_word_len_all(w: Seq<char>)
    requires
        forall|i: int| 0 <= i < w.len() ==> in_word(#[trigger] w[i]),
    ensures
        word_len(w) == w.len(),
    decreases w.len(),
{
    if w.len() > 0 {
        let rest = w.skip(1);
        assert forall|i: int| 0 <= i < rest.len() implies in_word(#[trigger] rest[i]) by {
            assert(rest[i] == w[i + 1]);
        }
        lemma_word_len_all(rest);
    }
}

/// The tokens of two queries in parentheses with a word, or only a space, between
/// them.
proof fn lemma_lex_joined(a: Seq<char>, qa: Query, word: Seq<char>, b: Seq<char>, qb: Query)
    requires
        parse_text(a) == Ok::<Query, Seq<char>>(qa),
        qa != Query::All,
        parse_text(b) == Ok::<Query, Seq<char>>(qb),
        qb != Query::All,
        word.len() > 0,
        forall|i: int| 0 <= i < word.len() ==> in_word(#[trigger] word[i]),
    ensures
        lex(enclosed(a) + seq![' '] + enclosed(b)) == Lexed::Tokens(enclosed_tokens(a) + enclosed_tokens(b)),
        lex(enclosed(a) + (seq![' '] + word + seq![' ']) + enclosed(b)) == Lexed::Tokens(
            enclosed_tokens(a) + word_tokens(word) + enclosed_tokens(b),
        ),
{
    let right = enclosed(b);
    let (ta, tb) = (enclosed_tokens(a), enclosed_tokens(b));
    let space = seq![' '];
    let tail = word + space + right;
    lemma_lex_enclosed_end(b, qb);
    lemma_lex_enclosed(a, qa, space + right);
    lemma_lex_spaces(space, right);
    assert(enclosed(a) + space + right =~= enclosed(a) + (space + right));
    lemma_lex_enclosed(a, qa, space + tail);
    lemma_lex_word(word, space, right);
    lemma_lex_spaces(space, tail);
    assert(enclosed(a) + (space + word + space) + right =~= enclosed(a) + (space + tail));
    assert(ta + (word_tokens(word) + tb) =~= ta + word_tokens(word) + tb);
}

/// Two queries in parentheses, with OR between them, say that either holds.
pub proof fn law_or_joins_queries(a: Seq<char>, qa: Query, b: Seq<char>, qb: Query)
    requires
        parse_text(a) == Ok::<Query, Seq<char>>(qa),
        qa != Query::All,
        parse_text(b) == Ok::<Query, Seq<char>>(qb),
        qb != Query::All,
    ensures
        parse_text(enclosed(a) + " OR "@ + enclosed(b)) == Ok::<Query, Seq<char>>(
            Query::Or(Box::new(qa), Box::new(qb)),
        ),
{
    reveal_strlit(" OR ");
    reveal_strlit("OR");
    assert(" OR "@ =~= seq![' '] + "OR"@ + seq![' ']);
    lemma_keywords();
    lemma_lex_joined(a, qa, "OR"@, b, qb);
    lemma_lex_enclosed_end(a, qa);
    lemma_lex_enclosed_end(b, qb);
    let (ta, tb) = (enclosed_tokens(a), enclosed_tokens(b));
    lemma_atom(qa, ta);
    lemma_atom(qb, tb);
    lemma_or_of(ta, qa, tb, qb);
    lemma_says(
        enclosed(a) + " OR "@ + enclosed(b),
        ta + seq![Tok::Or] + tb,
        Query::Or(Box::new(qa), Box::new(qb)),
    );
}

/// Two queries in parentheses, with AND or only a space between them, say that
/// both hold.
pub proof fn law_and_joins_queries(a: Seq<char>, qa: Query, b: Seq<char>, qb: Query)
    requires
        parse_text(a) == Ok::<Query, Seq<char>>(qa),
        qa != Query::All,
        parse_text(b) == Ok::<Query, Seq<char>>(qb),
        qb != Query::All,
    ensures
        parse_text(enclosed(a) + " AND "@ + enclosed(b)) == Ok::<Query, Seq<char>>(
            Query::And(Box::new(qa), Box::new(qb)),
        ),
        parse_text(enclosed(a) + " "@ + enclosed(b)) == Ok::<Query, Seq<char>>(
            Query::And(Box::new(qa), Box::new(qb)),
        ),
{
    reveal_strlit(" AND ");
    reveal_strlit(" ");
    reveal_strlit("AND");
    assert(" AND "@ =~= seq![' '] + "AND"@ + seq![' ']);
    assert(" "@ =~= seq![' ']);
    lemma_keywords();
    lemma_lex_joined(a, qa, "AND"@, b, qb);
    lemma_lex_enclosed_end(a, qa);
    lemma_lex_enclosed_end(b, qb);
    let q = Query::And(Box::new(qa), Box::new(qb));
    let (ta, tb) = (enclosed_tokens(a), enclosed_tokens(b));
    lemma_atom(qa, ta);
    lemma_atom(qb, tb);
    law_juxtaposition_is_and(ta, qa, tb, qb);
    lemma_says(enclosed(a) + " AND "@ + enclosed(b), ta + seq![Tok::And] + tb, q);
    lemma_says(enclosed(a) + " "@ + enclosed(b), ta + tb, q);
}

/// NOT or a minus before a query in parentheses says that it does not hold.
pub proof fn law_not_negates_query(s: Seq<char>, q: Query)
    requires
        parse_text(s) == Ok::<Query, Seq<char>>(q),
        q != Query::All,
    ensures
        parse_text("NOT "@ + enclosed(s)) == Ok::<Query, Seq<char>>(Query::Not(Box::new(q))),
        parse_text("-"@ + enclosed(s)) == Ok::<Query, Seq<char>>(Query::Not(Box::new(q))),
{
    reveal_strlit("NOT ");
    reveal_strlit("NOT");
    reveal_strlit("-");
    let t = enclosed_tokens(s);
    let n = Query::Not(Box::new(q));
    lemma_keywords();
    lemma_lex_enclosed_end(s, q);
    lemma_atom(q, t);
    lemma_lex_word("NOT"@, seq![' '], enclosed(s));
    assert("NOT "@ + enclosed(s) =~= "NOT"@ + seq![' '] + enclosed(s));
    lemma_not_of(Tok::Not, q, t);
    lemma_says("NOT "@ + enclosed(s), seq![Tok::Not] + t, n);
    lemma_lex_word("-"@, Seq::empty(), enclosed(s));
    assert("-"@ + enclosed(s) =~= "-"@ + Seq::<char>::empty() + enclosed(s));
    lemma_not_of(Tok::Minus, q, t);
    lemma_says("-"@ + enclosed(s), seq![Tok::Minus] + t, n);
}

/// A text in quotes.
pub open spec fn quoted(s: Seq<char>) -> Seq<char> {
    seq!['"'] + s + seq!['"']
}

/// A text in quotes, with no quote inside, is a term: keywords, signs and white
/// space in it are part of the term.
pub proof fn law_quoted_text_is_a_term(s: Seq<char>)
    requires
        s.len() > 0,
        !s.contains('"'),
    ensures
        parse_text(quoted(s)) == Ok::<Query, Seq<char>>(Query::Term(s)),
{
    let x = quoted(s);
    let inner = x.skip(1);
    let k = s.len() as int;
    assert(inner =~= s + seq!['"']);
    assert forall|i: int| 0 <= i < k implies inner[i] != '"' by {
        assert(s.contains(s[i]));
    }
    text::lemma_first_at_is(inner, '"', k);
    assert(inner.take(k) =~= s);
    assert(inner.skip(k + 1) =~= Seq::empty());
    let t = seq![Tok::Term(s)];
    assert(lex(inner.skip(k + 1)) == Lexed::Tokens(Seq::empty()));
    assert(t + Seq::<Tok>::empty() =~= t);
    lemma_atom(Query::Term(s), t);
    lemma_says(x, t, Query::Term(s));
}

/// A text for a query: its terms in quotes, its operators between parentheses.
pub open spec fn written(q: Query) -> Seq<char>
    decreases q,
{
    match q {
        Query::All => ""@,
        Query::Term(t) => quoted(t),
        Query::And(a, b) => enclosed(written(*a)) + " AND "@ + enclosed(written(*b)),
        Query::Or(a, b) => enclosed(written(*a)) + " OR "@ + enclosed(written(*b)),
        Query::Not(a) => "NOT "@ + enclosed(written(*a)),
    }
}

/// Whether every operand of a query can be written: no term is empty or holds a
/// quote, and what every photo matches is no operand.
pub open spec fn writable(q: Query) -> bool
    decreases q,
{
    match q {
        Query::All => false,
        Query::Term(t) => t.len() > 0 && !t.contains('"'),
        Query::And(a, b) => writable(*a) && writable(*b),
        Query::Or(a, b) => writable(*a) && writable(*b),
        Query::Not(a) => writable(*a),
    }
}

/// Reading undoes writing: the text of a query parses to the query.
pub proof fn law_written_query_is_read_back(q: Query)
    requires
        q == Query::All || writable(q),
    ensures
        parse_text(written(q)) == Ok::<Query, Seq<char>>(q),
    decreases q,
{
    assert(!writable(Query::All));
    match q {
        Query::All => {
            reveal_strlit("");
            law_blank_matches_all(""@);
        },
        Query::Term(t) => {
            law_quoted_text_is_a_term(t);
        },
        Query::And(a, b) => {
            law_written_query_is_read_back(*a);
            law_written_query_is_read_back(*b);
            law_and_joins_queries(written(*a), *a, written(*b), *b);
        },
        Query::Or(a, b) => {
            law_written_query_is_read_back(*a);
            law_written_query_is_read_back(*b);
            law_or_joins_queries(written(*a), *a, written(*b), *b);
        },
        Query::Not(a) => {
            law_written_query_is_read_back(*a);
            law_not_negates_query(written(*a), *a);
        },
    }
}

/// Whether a text is a word: not empty, and without white space, parentheses and
/// quotes.
pub open spec fn is_word(w: Seq<char>) -> bool {
    &&& w.len() > 0
    &&& forall|i: int|
        0 <= i < w.len() ==> !text::is_space(#[trigger] w[i]) && w[i] != '(' && w[i] != ')' && w[i] != '"'
}

/// A text with its ASCII letters made small.
pub open spec fn small(w: Seq<char>) -> Seq<char> {
    w.map_values(|c: char| text::ascii_lower(c))
}

proof fn lemma_lex_whole_word(w: Seq<char>)
    requires
        is_word(w),
    ensures
        lex(w) == Lexed::Tokens(word_tokens(w)),
{
    assert forall|i: int| 0 <= i < w.len() implies in_word(#[trigger] w[i]) by {}
    lemma_word_len_all(w);
    assert(in_word(w[0]));
    assert(w.take(w.len() as int) =~= w);
    assert(w.skip(w.len() as int) =~= Seq::empty());
    assert(lex(w.skip(w.len() as int)) == Lexed::Tokens(Seq::empty()));
    assert(word_tokens(w) + Seq::<Tok>::empty() =~= word_tokens(w));
}

/// The keywords, in small or capital letters or both, are operators. A word that
/// is none of them and does not begin with a minus is a term. A minus before a
/// word is an operator and the word a term, be it a keyword or not.
pub proof fn law_words_are_terms_or_operators(w: Seq<char>)
    requires
        is_word(w),
    ensures
        small(w) == "and"@ ==> lex(w) == Lexed::Tokens(seq![Tok::And]),
        small(w) == "or"@ ==> lex(w) == Lexed::Tokens(seq![Tok::Or]),
        small(w) == "not"@ ==> lex(w) == Lexed::Tokens(seq![Tok::Not]),
        small(w) != "and"@ && small(w) != "or"@ && small(w) != "not"@ && w[0] != '-' ==> lex(w) == Lexed::Tokens(
            seq![Tok::Term(w)],
        ),
        lex(seq!['-'] + w) == Lexed::Tokens(seq![Tok::Minus, Tok::Term(w)]),
        lex(seq!['-']) == Lexed::Tokens(seq![Tok::Minus]),
{
    reveal_strlit("and");
    reveal_strlit("or");
    reveal_strlit("not");
    reveal_strlit("-");
    assert("-"@ =~= seq!['-']);
    assert(small("and"@) =~= "and"@);
    assert(small("or"@) =~= "or"@);
    assert(small("not"@) =~= "not"@);
    text::law_ascii_case_is_ignored(w, "and"@);
    text::law_ascii_case_is_ignored(w, "or"@);
    text::law_ascii_case_is_ignored(w, "not"@);
    lemma_lex_whole_word(w);
    if small(w) == "or"@ {
        assert("or"@.len() != "and"@.len());
    }
    if small(w) == "not"@ {
        assert("not"@[0] != "and"@[0]);
        assert("not"@.len() != "or"@.len());
    }
    if text::begins(w, "-"@) {
        assert(w.take(1)[0] == w[0]);
    }
    if w == "-"@ {
        assert(w[0] == '-');
    }
    let m = seq!['-'] + w;
    assert(is_word(m)) by {
        assert forall|i: int| 0 <= i < m.len() implies !text::is_space(#[trigger] m[i]) && m[i] != '(' && m[i] != ')'
            && m[i] != '"' by {
            if i > 0 {
                assert(m[i] == w[i - 1]);
            }
        }
    }
    lemma_lex_whole_word(m);
    assert(m[0] == '-');
    assert(small(m)[0] == '-');
    text::law_ascii_case_is_ignored(m, "and"@);
    text::law_ascii_case_is_ignored(m, "or"@);
    text::law_ascii_case_is_ignored(m, "not"@);
    assert(small(m) != "and"@ && small(m) != "or"@ && small(m) != "not"@);
    assert(m.len() >= 2);
    assert(m.take(1) =~= "-"@);
    assert(m.skip(1) =~= w);
    assert(word_tokens(m) =~= seq![Tok::Minus, Tok::Term(w)]);
    let lone = seq!['-'];
    assert(is_word(lone));
    lemma_lex_whole_word(lone);
    text::law_ascii_case_is_ignored(lone, "and"@);
    text::law_ascii_case_is_ignored(lone, "or"@);
    text::law_ascii_case_is_ignored(lone, "not"@);
    assert(small(lone).len() == 1);
}

/// A word alone asks for its term, and a minus before a word asks for what does
/// not match the word, however long it is and even if it is a keyword.
pub proof fn law_minus_before_a_word_negates_it(w: Seq<char>)
    requires
        is_word(w),
    ensures
        parse_text(seq!['-'] + w) == Ok::<Query, Seq<char>>(Query::Not(Box::new(Query::Term(w)))),
        small(w) != "and"@ && small(w) != "or"@ && small(w) != "not"@ && w[0] != '-' ==> parse_text(w) == Ok::<
            Query,
            Seq<char>,
        >(Query::Term(w)),
{
    law_words_are_terms_or_operators(w);
    let term = seq![Tok::Term(w)];
    let m = seq!['-'] + w;
    lemma_atom(Query::Term(w), term);
    lemma_not_of(Tok::Minus, Query::Term(w), term);
    assert(seq![Tok::Minus] + term =~= seq![Tok::Minus, Tok::Term(w)]);
    assert(m[m.len() - 1] == w[w.len() - 1]);
    assert(!text::is_space('-'));
    lemma_says(m, seq![Tok::Minus, Tok::Term(w)], Query::Not(Box::new(Query::Term(w))));
    if small(w) != "and"@ && small(w) != "or"@ && small(w) != "not"@ && w[0] != '-' {
        lemma_says(w, term, Query::Term(w));
    }
}

/// White space stands between tokens and is none; a parenthesis is a token
/// wherever it stands outside quotes. What follows is cut on its own.
pub proof fn law_signs_stand_alone(c: char, rest: Seq<char>)
    ensures
        text::is_space(c) ==> lex(seq![c] + rest) == lex(rest),
        lex(seq!['('] + rest) == prefixed(seq![Tok::LParen], lex(rest)),
        lex(seq![')'] + rest) == prefixed(seq![Tok::RParen], lex(rest)),
        lex(Seq::empty()) == Lexed::Tokens(Seq::empty()),
{
    assert((seq![c] + rest).skip(1) =~= rest);
    assert((seq!['('] + rest).skip(1) =~= rest);
    assert((seq![')'] + rest).skip(1) =~= rest);
}

/// A text in quotes is one term as it stands, and what follows is cut on its own.
/// Quotes around nothing, and a quote that is not closed, are refused.
pub proof fn law_quotes_hold_a_term(s: Seq<char>, rest: Seq<char>)
    requires
        !s.contains('"'),
    ensures
        s.len() > 0 ==> lex(quoted(s) + rest) == prefixed(seq![Tok::Term(s)], lex(rest)),
        s.len() == 0 ==> lex(quoted(s) + rest) == Lexed::Failed("empty quoted term in search query"@),
        lex(seq!['"'] + s) == Lexed::Failed("unterminated quoted term in search query"@),
{
    let x = quoted(s) + rest;
    let inner = x.skip(1);
    let k = s.len() as int;
    assert(inner =~= s + seq!['"'] + rest);
    assert forall|i: int| 0 <= i < k implies inner[i] != '"' by {
        assert(s.contains(s[i]));
    }
    text::lemma_first_at_is(inner, '"', k);
    assert(inner.take(k) =~= s);
    assert(inner.skip(k + 1) =~= rest);
    let y = seq!['"'] + s;
    assert(y.skip(1) =~= s);
    text::lemma_first_at(s, '"');
}

/// Tokens put after each other keep their order, and a failure stays one.
pub proof fn law_tokens_are_kept_in_order(front: Seq<Tok>, t: Seq<Tok>, m: Seq<char>)
    ensures
        prefixed(front, Lexed::Tokens(t)) == Lexed::Tokens(front + t),
        prefixed(front, Lexed::Failed(m)) == Lexed::Failed(m),
{
}

/// A query is refused if an operator lacks its operand, a parenthesis its
/// partner, or something stands behind the end of it; and what is refused is
/// told.
pub proof fn law_incomplete_queries_are_refused(s: Seq<char>, q: Query)
    requires
        parse_text(s) == Ok::<Query, Seq<char>>(q),
        q != Query::All,
    ensures
        parse_text(enclosed(s) + " OR"@) == Err::<Query, Seq<char>>("expected a search term"@),
        parse_text(enclosed(s) + " AND"@) == Err::<Query, Seq<char>>("expected a search term"@),
        parse_text(enclosed(s) + " NOT"@) == Err::<Query, Seq<char>>("expected a search term"@),
        parse_text(enclosed(s) + ")"@) == Err::<Query, Seq<char>>("unexpected trailing input in search query"@),
        parse_text("("@ + enclosed(s)) == Err::<Query, Seq<char>>("expected closing parenthesis in search query"@),
{
    reveal_strlit(" OR");
    reveal_strlit(" AND");
    reveal_strlit(" NOT");
    reveal_strlit("OR");
    reveal_strlit("AND");
    reveal_strlit("NOT");
    reveal_strlit(")");
    reveal_strlit("(");
    let t = enclosed_tokens(s);
    let n = t.len() as int;
    let e = enclosed(s);
    lemma_lex_enclosed_end(s, q);
    lemma_atom(q, t);
    lemma_keywords();
    let space = seq![' '];
    assert(" OR"@ =~= space + "OR"@);
    assert(" AND"@ =~= space + "AND"@);
    assert(" NOT"@ =~= space + "NOT"@);
    lemma_lex_whole_word("OR"@);
    lemma_lex_whole_word("AND"@);
    lemma_lex_whole_word("NOT"@);
    lemma_lex_spaces(space, "OR"@);
    lemma_lex_spaces(space, "AND"@);
    lemma_lex_spaces(space, "NOT"@);
    lemma_lex_enclosed(s, q, " OR"@);
    lemma_lex_enclosed(s, q, " AND"@);
    lemma_lex_enclosed(s, q, " NOT"@);
    lemma_lex_enclosed(s, q, ")"@);
    law_signs_stand_alone(' ', Seq::empty());
    assert(")"@ =~= seq![')'] + Seq::<char>::empty());
    assert(seq![Tok::RParen] + Seq::<Tok>::empty() =~= seq![Tok::RParen]);
    lemma_tail(s, q, Tok::Or);
    lemma_tail(s, q, Tok::And);
    lemma_tail(s, q, Tok::Not);
    lemma_tail(s, q, Tok::RParen);
    text::lemma_trimmed(e + " OR"@);
    text::lemma_trimmed(e + " AND"@);
    text::lemma_trimmed(e + " NOT"@);
    text::lemma_trimmed(e + ")"@);
    let o = "("@ + e;
    text::lemma_trimmed(o);
    law_signs_stand_alone(' ', e);
    assert("("@ =~= seq!['(']);
    let u = seq![Tok::LParen] + t;
    assert(lex(o) == Lexed::Tokens(u));
    assert(u.subrange(1, 1 + n) =~= t);
    lemma_complete_or(q, u, 1, n);
    assert(tok_at(u, 1 + n) is None);
    assert(read_or(u, 1) == Parsed::Done(q, 1 + n));
    assert(u[0] == Tok::LParen);
    assert(read_atom(u, 0) == Parsed::Failed("expected closing parenthesis in search query"@));
    assert(read_not(u, 0) == Parsed::Failed("expected closing parenthesis in search query"@));
    assert(read_and(u, 0) == Parsed::Failed("expected closing parenthesis in search query"@));
    assert(read_or(u, 0) == Parsed::Failed("expected closing parenthesis in search query"@));
}

/// A text is the white space at its ends and what is between.
proof fn lemma_ends_of(s: Seq<char>) -> (r: (Seq<char>, Seq<char>))
    ensures
        s == r.0 + text::trimmed(s) + r.1,
        forall|i: int| 0 <= i < r.0.len() ==> text::is_space(#[trigger] r.0[i]),
        forall|i: int| 0 <= i < r.1.len() ==> text::is_space(#[trigger] r.1[i]),
{
    let p = |c: char| text::is_space(c);
    let front = text::strip_front(s, p);
    let core = text::strip_back(front, p);
    text::lemma_strip_front(s, p);
    text::lemma_strip_back(front, p);
    let lead = s.take(s.len() - front.len());
    let trail = front.skip(core.len() as int);
    assert(core == text::trimmed(s));
    assert(s =~= lead + core + trail);
    assert forall|i: int| 0 <= i < lead.len() implies text::is_space(#[trigger] lead[i]) by {
        assert(p(s[i]));
    }
    assert forall|i: int| 0 <= i < trail.len() implies text::is_space(#[trigger] trail[i]) by {
        assert(p(front[core.len() + i]));
    }
    (lead, trail)
}

/// The tokens of a text that says something.
proof fn lemma_tokens_of(s: Seq<char>, q: Query) -> (t: Seq<Tok>)
    requires
        parse_text(s) == Ok::<Query, Seq<char>>(q),
        q != Query::All,
    ensures
        lex(text::trimmed(s)) == Lexed::Tokens(t),
        t.len() > 0,
        is_or(q, t),
        text::trimmed(s).len() > 0,
        text::is_trim(text::trimmed(s)),
{
    let t = lex(text::trimmed(s))->Tokens_0;
    assert(lex(text::trimmed(s)) == Lexed::Tokens(t));
    law_parse_follows_grammar(s, t);
    text::lemma_trimmed(s);
    t
}

/// The tokens of a word, of white space behind it and of a text.
proof fn lemma_lex_word_before(word: Seq<char>, gap: Seq<char>, b: Seq<char>)
    requires
        is_word(word),
        gap.len() > 0,
        forall|i: int| 0 <= i < gap.len() ==> text::is_space(#[trigger] gap[i]),
    ensures
        lex(word + gap + b) == prefixed(word_tokens(word), lex(b)),
{
    lemma_lex_whole_word(word);
    assert(word + gap + b =~= word + (gap + b));
    assert((gap + b)[0] == gap[0]);
    law_texts_are_cut_apart(word, word_tokens(word), gap + b);
    lemma_lex_spaces(gap, b);
}

/// The tokens of two texts with a space between them, or with a word.
#[verifier::rlimit(30)]
proof fn lemma_lex_two(a: Seq<char>, qa: Query, word: Seq<char>, b: Seq<char>, qb: Query)
    requires
        parse_text(a) == Ok::<Query, Seq<char>>(qa),
        qa != Query::All,
        parse_text(b) == Ok::<Query, Seq<char>>(qb),
        qb != Query::All,
        is_word(word),
    ensures
        ({
            let ta = lex(text::trimmed(a))->Tokens_0;
            let tb = lex(text::trimmed(b))->Tokens_0;
            &&& lex(text::trimmed(a + seq![' '] + b)) == Lexed::Tokens(ta + tb)
            &&& lex(text::trimmed(a + (seq![' '] + word + seq![' ']) + b)) == Lexed::Tokens(ta + word_tokens(word) + tb)
        }),
{
    let ta = lemma_tokens_of(a, qa);
    let tb = lemma_tokens_of(b, qb);
    let (la, ra) = lemma_ends_of(a);
    let (lb, rb) = lemma_ends_of(b);
    let (ma, mb) = (text::trimmed(a), text::trimmed(b));
    let space = seq![' '];
    let gap = ra + space;
    let rest = space + lb;
    let near = ra + space + lb;
    assert forall|i: int| 0 <= i < near.len() implies text::is_space(#[trigger] near[i]) by {
        if i < ra.len() {
            assert(near[i] == ra[i]);
        } else if i > ra.len() {
            assert(near[i] == lb[i - ra.len() - 1]);
        }
    }
    assert forall|i: int| 0 <= i < gap.len() implies text::is_space(#[trigger] gap[i]) by {
        assert(gap[i] == near[i]);
    }
    assert forall|i: int| 0 <= i < rest.len() implies text::is_space(#[trigger] rest[i]) by {
        assert(rest[i] == near[ra.len() + i]);
    }
    let c = ma + (near + mb);
    assert(a + space + b =~= la + c + rb);
    assert(c[0] == ma[0] && c[c.len() - 1] == mb.last());
    text::law_trimming_takes_off_white_space(la, c, rb);
    assert((near + mb)[0] == near[0]);
    law_texts_are_cut_apart(ma, ta, near + mb);
    lemma_lex_spaces(near, mb);
    let tail = word + rest + mb;
    let d = ma + (gap + tail);
    assert(a + (space + word + space) + b =~= la + d + rb);
    assert(d[0] == ma[0] && d[d.len() - 1] == mb.last());
    text::law_trimming_takes_off_white_space(la, d, rb);
    assert((gap + tail)[0] == gap[0]);
    law_texts_are_cut_apart(ma, ta, gap + tail);
    lemma_lex_spaces(gap, tail);
    lemma_lex_word_before(word, rest, mb);
    assert(ta + (word_tokens(word) + tb) =~= ta + word_tokens(word) + tb);
}

/// The tokens of a word, a space and a text.
proof fn lemma_lex_behind(word: Seq<char>, b: Seq<char>, qb: Query)
    requires
        parse_text(b) == Ok::<Query, Seq<char>>(qb),
        qb != Query::All,
        is_word(word),
    ensures
        lex(text::trimmed(word + seq![' '] + b)) == Lexed::Tokens(word_tokens(word) + lex(text::trimmed(b))->Tokens_0),
{
    let tb = lemma_tokens_of(b, qb);
    let (lb, rb) = lemma_ends_of(b);
    let mb = text::trimmed(b);
    let gap = seq![' '] + lb;
    let none = Seq::<char>::empty();
    assert forall|i: int| 0 <= i < gap.len() implies text::is_space(#[trigger] gap[i]) by {
        if i > 0 {
            assert(gap[i] == lb[i - 1]);
        }
    }
    let c = word + gap + mb;
    assert(word + seq![' '] + b =~= none + c + rb);
    assert(c[0] == word[0] && c[c.len() - 1] == mb.last());
    text::law_trimming_takes_off_white_space(none, c, rb);
    lemma_lex_word_before(word, gap, mb);
}

proof fn lemma_operator_words()
    ensures
        is_word("AND"@),
        is_word("OR"@),
        is_word("NOT"@),
        " AND "@ == seq![' '] + "AND"@ + seq![' '],
        " OR "@ == seq![' '] + "OR"@ + seq![' '],
        "NOT "@ == "NOT"@ + seq![' '],
        "AND "@ == "AND"@ + seq![' '],
        "OR "@ == "OR"@ + seq![' '],
        " "@ == seq![' '],
{
    reveal_strlit("AND");
    reveal_strlit("OR");
    reveal_strlit("NOT");
    reveal_strlit(" AND ");
    reveal_strlit(" OR ");
    reveal_strlit("NOT ");
    reveal_strlit("AND ");
    reveal_strlit("OR ");
    reveal_strlit(" ");
    assert(" AND "@ =~= seq![' '] + "AND"@ + seq![' ']);
    assert(" OR "@ =~= seq![' '] + "OR"@ + seq![' ']);
    assert("NOT "@ =~= "NOT"@ + seq![' ']);
    assert("AND "@ =~= "AND"@ + seq![' ']);
    assert("OR "@ =~= "OR"@ + seq![' ']);
    assert(" "@ =~= seq![' ']);
}

/// OR binds weakest, and from the left: what stands before it is its first part
/// as a whole, and what stands behind it is its second, be it joined by AND or
/// not, as long as no other OR stands there.
pub proof fn law_or_binds_weakest(a: Seq<char>, qa: Query, b: Seq<char>, qb: Query)
    requires
        parse_text(a) == Ok::<Query, Seq<char>>(qa),
        qa != Query::All,
        parse_text(b) == Ok::<Query, Seq<char>>(qb),
        qb != Query::All,
        !(qb is Or),
    ensures
        parse_text(a + " OR "@ + b) == Ok::<Query, Seq<char>>(Query::Or(Box::new(qa), Box::new(qb))),
{
    let ta = lemma_tokens_of(a, qa);
    let tb = lemma_tokens_of(b, qb);
    lemma_operator_words();
    lemma_keywords();
    lemma_lex_two(a, qa, "OR"@, b, qb);
    assert(is_and(qb, tb));
    lemma_or_of(ta, qa, tb, qb);
    law_parse_follows_grammar(a + " OR "@ + b, ta + seq![Tok::Or] + tb);
}

/// AND binds stronger than OR, and from the left, and needs not be written: what
/// stands before it is its first part, as long as no OR stands there, and what
/// stands behind it is its second, as long as it is no other AND or OR.
pub proof fn law_and_binds_stronger(a: Seq<char>, qa: Query, b: Seq<char>, qb: Query)
    requires
        parse_text(a) == Ok::<Query, Seq<char>>(qa),
        qa != Query::All && !(qa is Or),
        parse_text(b) == Ok::<Query, Seq<char>>(qb),
        qb != Query::All && !(qb is Or) && !(qb is And),
    ensures
        parse_text(a + " AND "@ + b) == Ok::<Query, Seq<char>>(Query::And(Box::new(qa), Box::new(qb))),
        parse_text(a + " "@ + b) == Ok::<Query, Seq<char>>(Query::And(Box::new(qa), Box::new(qb))),
{
    let ta = lemma_tokens_of(a, qa);
    let tb = lemma_tokens_of(b, qb);
    let q = Query::And(Box::new(qa), Box::new(qb));
    lemma_operator_words();
    lemma_keywords();
    lemma_lex_two(a, qa, "AND"@, b, qb);
    assert(is_and(qa, ta));
    assert(is_and(qb, tb));
    assert(is_not(qb, tb));
    law_juxtaposition_is_and(ta, qa, tb, qb);
    assert(is_or(q, ta + tb));
    assert(is_or(q, ta + seq![Tok::And] + tb));
    law_parse_follows_grammar(a + " AND "@ + b, ta + seq![Tok::And] + tb);
    law_parse_follows_grammar(a + " "@ + b, ta + tb);
}

/// NOT binds strongest: it negates what stands behind it, as long as that is not
/// joined by AND or OR, and what is joined to that is not negated.
pub proof fn law_not_binds_strongest(a: Seq<char>, qa: Query, b: Seq<char>, qb: Query)
    requires
        parse_text(a) == Ok::<Query, Seq<char>>(qa),
        qa != Query::All && !(qa is Or) && !(qa is And),
        parse_text(b) == Ok::<Query, Seq<char>>(qb),
        qb != Query::All && !(qb is Or) && !(qb is And),
    ensures
        parse_text("NOT "@ + a) == Ok::<Query, Seq<char>>(Query::Not(Box::new(qa))),
        parse_text("NOT "@ + a + " AND "@ + b) == Ok::<Query, Seq<char>>(
            Query::And(Box::new(Query::Not(Box::new(qa))), Box::new(qb)),
        ),
        parse_text("NOT "@ + a + " OR "@ + b) == Ok::<Query, Seq<char>>(
            Query::Or(Box::new(Query::Not(Box::new(qa))), Box::new(qb)),
        ),
{
    let ta = lemma_tokens_of(a, qa);
    lemma_operator_words();
    lemma_keywords();
    lemma_lex_behind("NOT"@, a, qa);
    assert(is_and(qa, ta));
    assert(is_not(qa, ta));
    lemma_not_of(Tok::Not, qa, ta);
    law_parse_follows_grammar("NOT "@ + a, seq![Tok::Not] + ta);
    law_or_binds_weakest("NOT "@ + a, Query::Not(Box::new(qa)), b, qb);
    law_and_binds_stronger("NOT "@ + a, Query::Not(Box::new(qa)), b, qb);
}

/// Where a term is due, an operator or a closing parenthesis is refused by its
/// name, and so is the end of the query.
pub proof fn law_misplaced_tokens_are_told(t: Seq<Tok>, i: int)
    requires
        0 <= i <= t.len(),
    ensures
        i < t.len() && t[i] == Tok::And ==> read_or(t, i) == Parsed::Failed(
            "unexpected token in search query: "@ + "And"@,
        ),
        i < t.len() && t[i] == Tok::Or ==> read_or(t, i) == Parsed::Failed(
            "unexpected token in search query: "@ + "Or"@,
        ),
        i < t.len() && t[i] == Tok::RParen ==> read_or(t, i) == Parsed::Failed(
            "unexpected token in search query: "@ + "RParen"@,
        ),
        i == t.len() ==> read_or(t, i) == Parsed::Failed("expected a search term"@),
{
    let atom = read_atom(t, i);
    if i == t.len() || t[i] == Tok::And || t[i] == Tok::Or || t[i] == Tok::RParen {
        assert(read_not(t, i) == atom);
        assert(atom is Failed);
        assert(read_and(t, i) == atom);
        assert(read_or(t, i) == atom);
    }
}

/// A query that begins with an operator for two parts is refused, and the answer
/// tells the operator.
pub proof fn law_operator_needs_a_first_part(b: Seq<char>, qb: Query)
    requires
        parse_text(b) == Ok::<Query, Seq<char>>(qb),
        qb != Query::All,
    ensures
        parse_text("AND "@ + b) == Err::<Query, Seq<char>>("unexpected token in search query: "@ + "And"@),
        parse_text("OR "@ + b) == Err::<Query, Seq<char>>("unexpected token in search query: "@ + "Or"@),
{
    let tb = lemma_tokens_of(b, qb);
    lemma_operator_words();
    lemma_keywords();
    lemma_lex_behind("AND"@, b, qb);
    lemma_lex_behind("OR"@, b, qb);
    law_misplaced_tokens_are_told(seq![Tok::And] + tb, 0);
    law_misplaced_tokens_are_told(seq![Tok::Or] + tb, 0);
}

/// A word ends at white space, at a parenthesis and at a quote.
pub proof fn law_words_end_at_signs(w: Seq<char>, b: Seq<char>)
    requires
        is_word(w),
        b.len() > 0,
        text::is_space(b[0]) || b[0] == '(' || b[0] == ')' || b[0] == '"',
    ensures
        lex(w) is Tokens,
        lex(w + b) == prefixed(lex(w)->Tokens_0, lex(b)),
{
    lemma_lex_whole_word(w);
    law_texts_are_cut_apart(w, word_tokens(w), b);
}

/// What is read of a query in parentheses with one more token behind it.
proof fn lemma_tail(s: Seq<char>, q: Query, last: Tok)
    requires
        parse_text(s) == Ok::<Query, Seq<char>>(q),
        q != Query::All,
        last == Tok::Or || last == Tok::And || last == Tok::Not || last == Tok::RParen,
    ensures
        ({
            let t = enclosed_tokens(s) + seq![last];
            read_or(t, 0) == (if last == Tok::RParen {
                Parsed::Done(q, t.len() - 1)
            } else {
                Parsed::Failed("expected a search term"@)
            })
        }),
{
    let front = enclosed_tokens(s);
    let t = front + seq![last];
    let n = front.len() as int;
    lemma_lex_enclosed_end(s, q);
    lemma_atom(q, front);
    assert(t.subrange(0, n) =~= front);
    assert(t[n] == last);
    assert(tok_at(t, n + 1) is None);
    assert(read_atom(t, n + 1) == Parsed::Failed("expected a search term"@));
    assert(read_not(t, n + 1) == Parsed::Failed("expected a search term"@));
    assert(read_and(t, n + 1) == Parsed::Failed("expected a search term"@));
    if last == Tok::Or || last == Tok::RParen {
        lemma_complete_or(q, t, 0, n);
        assert(read_or(t, 0) == read_or_rest(t, q, n));
    } else {
        lemma_complete_and(q, t, 0, n);
        assert(read_and(t, 0) == read_and_rest(t, q, n));
        if last == Tok::Not {
            assert(read_not(t, n) == Parsed::Failed("expected a search term"@));
        }
        assert(read_and_rest(t, q, n) == Parsed::Failed("expected a search term"@));
    }
}

/// An expression says what it is made of.
pub proof fn law_expression_says_its_parts(t: String, a: Expr, b: Expr)
    ensures
        Expr::All.query() == Query::All,
        Expr::Term(t).query() == Query::Term(t@),
        Expr::And(Box::new(a), Box::new(b)).query() == Query::And(Box::new(a.query()), Box::new(b.query())),
        Expr::Or(Box::new(a), Box::new(b)).query() == Query::Or(Box::new(a.query()), Box::new(b.query())),
        Expr::Not(Box::new(a)).query() == Query::Not(Box::new(a.query())),
        Token::LParen.tok() == Tok::LParen,
        Token::RParen.tok() == Tok::RParen,
        Token::And.tok() == Tok::And,
        Token::Or.tok() == Tok::Or,
        Token::Not.tok() == Tok::Not,
        Token::Minus.tok() == Tok::Minus,
        Token::Term(t).tok() == Tok::Term(t@),
{
}

/// The tokens of a list are told one by one.
pub proof fn law_tokens_are_told_one_by_one(v: Seq<Token>)
    ensures
        toks(v).len() == v.len(),
        forall|i: int| 0 <= i < v.len() ==> #[trigger] toks(v)[i] == v[i].tok(),
{
}

/// The terms that occur in a query.
pub open spec fn terms_of(q: Query) -> Set<Seq<char>>
    decreases q,
{
    match q {
        Query::All => Set::empty(),
        Query::Term(t) => Set::empty().insert(t),
        Query::And(a, b) => terms_of(*a).union(terms_of(*b)),
        Query::Or(a, b) => terms_of(*a).union(terms_of(*b)),
        Query::Not(a) => terms_of(*a),
    }
}

/// Adds the terms of `expr` to `out`.
pub fn collect_terms(expr: &Expr, out: &mut StrMap<()>)
    ensures
        final(out)@.dom() == old(out)@.dom().union(terms_of(expr.query())),
    decreases expr,
{
    let ghost was = out@.dom();
    match expr {
        Expr::All => {
            assert(was =~= was.union(Set::empty()));
        },
        Expr::Term(t) => {
            out.insert(t.clone(), ());
            assert(out@.dom() =~= was.union(terms_of(expr.query())));
        },
        Expr::And(a, b) => {
            collect_terms(a, out);
            collect_terms(b, out);
            assert(out@.dom() =~= was.union(terms_of(expr.query())));
        },
        Expr::Or(a, b) => {
            collect_terms(a, out);
            collect_terms(b, out);
            assert(out@.dom() =~= was.union(terms_of(expr.query())));
        },
        Expr::Not(a) => {
            collect_terms(a, out);
        },
    }
}

/// The distinct terms of `expr`, for each of which the tag ids have to be found
/// before `build_sql` can run.
pub fn distinct_terms(expr: &Expr) -> (r: Vec<String>)
    ensures
        text::texts(r@).no_duplicates(),
        forall|t: Seq<char>| #[trigger] text::texts(r@).contains(t) <==> terms_of(expr.query()).contains(t),
{
    let mut set: StrMap<()> = StrMap::new();
    collect_terms(expr, &mut set);
    let out = set.keys();
    assert forall|t: Seq<char>| #[trigger] text::texts(out@).contains(t) <==> terms_of(expr.query()).contains(t) by {
        assert(set.order().contains(t) <==> set@.dom().contains(t));
    }
    out
}

/// The tag ids for a term: none if the term was not resolved.
pub open spec fn ids_for(ids: Map<Seq<char>, Vec<i64>>, term: Seq<char>) -> Seq<i64> {
    if ids.contains_key(term) {
        ids[term]@
    } else {
        Seq::empty()
    }
}

/// A condition on the photo `p` of a query over the photos.
pub enum Cond {
    Always,
    Never,
    /// `p` carries one of so many tags, each given by a bind value.
    AnyOf(nat),
    And(Box<Cond>, Box<Cond>),
    Or(Box<Cond>, Box<Cond>),
    Not(Box<Cond>),
}

/// The condition for a query.
pub open spec fn cond_of(q: Query, ids: Map<Seq<char>, Vec<i64>>) -> Cond
    decreases q,
{
    match q {
        Query::All => Cond::Always,
        Query::Term(t) => if ids_for(ids, t).len() == 0 {
            Cond::Never
        } else {
            Cond::AnyOf(ids_for(ids, t).len())
        },
        Query::And(a, b) => Cond::And(Box::new(cond_of(*a, ids)), Box::new(cond_of(*b, ids))),
        Query::Or(a, b) => Cond::Or(Box::new(cond_of(*a, ids)), Box::new(cond_of(*b, ids))),
        Query::Not(a) => Cond::Not(Box::new(cond_of(*a, ids))),
    }
}

/// The bind values for the condition of a query, in the order of their
/// placeholders.
pub open spec fn binds_of(q: Query, ids: Map<Seq<char>, Vec<i64>>) -> Seq<i64>
    decreases q,
{
    match q {
        Query::All => Seq::empty(),
        Query::Term(t) => ids_for(ids, t),
        Query::And(a, b) => binds_of(*a, ids) + binds_of(*b, ids),
        Query::Or(a, b) => binds_of(*a, ids) + binds_of(*b, ids),
        Query::Not(a) => binds_of(*a, ids),
    }
}

/// A condition as SQL text.
pub open spec fn cond_text(c: Cond) -> Seq<char>
    decreases c,
{
    match c {
        Cond::Always => "1=1"@,
        Cond::Never => "0=1"@,
        Cond::AnyOf(n) =>
            "EXISTS (SELECT 1 FROM photo_tags pt_term WHERE pt_term.photo_id = p.id AND pt_term.tag_id IN ("@
                + sql::marks(n) + "))"@,
        Cond::And(a, b) => "("@ + cond_text(*a) + " AND "@ + cond_text(*b) + ")"@,
        Cond::Or(a, b) => "("@ + cond_text(*a) + " OR "@ + cond_text(*b) + ")"@,
        Cond::Not(a) => "NOT ("@ + cond_text(*a) + ")"@,
    }
}

/// The SQL condition on `p.id` for `expr`, with its bind values in order, given
/// the tag ids of every term.
pub fn build_sql(expr: &Expr, ids_by_term: &StrMap<Vec<i64>>) -> (r: (String, Vec<i64>))
    ensures
        r.0@ == cond_text(cond_of(expr.query(), ids_by_term@)),
        r.1@ == binds_of(expr.query(), ids_by_term@),
    decreases expr,
{
    match expr {
        Expr::All => ("1=1".to_owned(), Vec::new()),
        Expr::Term(t) => {
            let ids: Vec<i64> = match ids_by_term.get(t.as_str()) {
                Some(v) => v.clone(),
                None => Vec::new(),
            };
            assert(ids@ =~= ids_for(ids_by_term@, t@));
            if ids.is_empty() {
                ("0=1".to_owned(), Vec::new())
            } else {
                let mut s =
                    "EXISTS (SELECT 1 FROM photo_tags pt_term WHERE pt_term.photo_id = p.id AND pt_term.tag_id IN (".to_owned();
                let marks = sql::placeholders(ids.len());
                s.append(marks.as_str());
                s.append("))");
                (s, ids)
            }
        },
        Expr::And(a, b) => {
            let (sa, mut ba) = build_sql(a, ids_by_term);
            let (sb, mut bb) = build_sql(b, ids_by_term);
            ba.append(&mut bb);
            let mut s = "(".to_owned();
            s.append(sa.as_str());
            s.append(" AND ");
            s.append(sb.as_str());
            s.append(")");
            (s, ba)
        },
        Expr::Or(a, b) => {
            let (sa, mut ba) = build_sql(a, ids_by_term);
            let (sb, mut bb) = build_sql(b, ids_by_term);
            ba.append(&mut bb);
            let mut s = "(".to_owned();
            s.append(sa.as_str());
            s.append(" OR ");
            s.append(sb.as_str());
            s.append(")");
            (s, ba)
        },
        Expr::Not(a) => {
            let (sa, ba) = build_sql(a, ids_by_term);
            let mut s = "NOT (".to_owned();
            s.append(sa.as_str());
            s.append(")");
            (s, ba)
        },
    }
}

/// The number of placeholders of a condition.
pub open spec fn cond_marks(c: Cond) -> nat
    decreases c,
{
    match c {
        Cond::Always => 0,
        Cond::Never => 0,
        Cond::AnyOf(n) => n,
        Cond::And(a, b) => cond_marks(*a) + cond_marks(*b),
        Cond::Or(a, b) => cond_marks(*a) + cond_marks(*b),
        Cond::Not(a) => cond_marks(*a),
    }
}

/// Whether a condition holds of a photo with the given tags when its
/// placeholders take the bind values from left to right.
pub open spec fn cond_holds(c: Cond, binds: Seq<i64>, tags: Set<i64>) -> bool
    decreases c,
{
    match c {
        Cond::Always => true,
        Cond::Never => false,
        Cond::AnyOf(n) => exists|i: int| 0 <= i < n && tags.contains(#[trigger] binds[i]),
        Cond::And(a, b) => {
            let k = cond_marks(*a) as int;
            cond_holds(*a, binds.take(k), tags) && cond_holds(*b, binds.skip(k), tags)
        },
        Cond::Or(a, b) => {
            let k = cond_marks(*a) as int;
            cond_holds(*a, binds.take(k), tags) || cond_holds(*b, binds.skip(k), tags)
        },
        Cond::Not(a) => !cond_holds(*a, binds, tags),
    }
}

/// Whether a photo with the given tags matches a query: a term asks for one of
/// the tags that it stands for.
pub open spec fn matches_query(q: Query, ids: Map<Seq<char>, Vec<i64>>, tags: Set<i64>) -> bool
    decreases q,
{
    match q {
        Query::All => true,
        Query::Term(t) => exists|i: int| 0 <= i < ids_for(ids, t).len() && tags.contains(#[trigger] ids_for(ids, t)[i]),
        Query::And(a, b) => matches_query(*a, ids, tags) && matches_query(*b, ids, tags),
        Query::Or(a, b) => matches_query(*a, ids, tags) || matches_query(*b, ids, tags),
        Query::Not(a) => !matches_query(*a, ids, tags),
    }
}

/// The SQL condition of a query selects exactly the photos that match it, and
/// there is one bind value to each placeholder.
pub proof fn law_sql_selects_matches(q: Query, ids: Map<Seq<char>, Vec<i64>>, tags: Set<i64>)
    ensures
        cond_marks(cond_of(q, ids)) == binds_of(q, ids).len(),
        cond_holds(cond_of(q, ids), binds_of(q, ids), tags) == matches_query(q, ids, tags),
    decreases q,
{
    match q {
        Query::And(a, b) => {
            law_sql_selects_matches(*a, ids, tags);
            law_sql_selects_matches(*b, ids, tags);
            let binds = binds_of(q, ids);
            let k = cond_marks(cond_of(*a, ids)) as int;
            assert(binds.take(k) =~= binds_of(*a, ids));
            assert(binds.skip(k) =~= binds_of(*b, ids));
        },
        Query::Or(a, b) => {
            law_sql_selects_matches(*a, ids, tags);
            law_sql_selects_matches(*b, ids, tags);
            let binds = binds_of(q, ids);
            let k = cond_marks(cond_of(*a, ids)) as int;
            assert(binds.take(k) =~= binds_of(*a, ids));
            assert(binds.skip(k) =~= binds_of(*b, ids));
        },
        Query::Not(a) => {
            law_sql_selects_matches(*a, ids, tags);
        },
        _ => {},
    }
}

/// The text of a condition holds as many placeholders as the condition.
pub proof fn law_text_has_marks(c: Cond)
    ensures
        sql::count(cond_text(c), '?') == cond_marks(c),
    decreases c,
{
    lemma_no_marks();
    match c {
        Cond::Always => {},
        Cond::Never => {},
        Cond::AnyOf(n) => {
            let head =
                "EXISTS (SELECT 1 FROM photo_tags pt_term WHERE pt_term.photo_id = p.id AND pt_term.tag_id IN ("@;
            sql::lemma_marks(n);
            sql::lemma_count_add(head, sql::marks(n), '?');
            sql::lemma_count_add(head + sql::marks(n), "))"@, '?');
        },
        Cond::And(a, b) => {
            law_text_has_marks(*a);
            law_text_has_marks(*b);
            lemma_count_five("("@, cond_text(*a), " AND "@, cond_text(*b), ")"@);
        },
        Cond::Or(a, b) => {
            law_text_has_marks(*a);
            law_text_has_marks(*b);
            lemma_count_five("("@, cond_text(*a), " OR "@, cond_text(*b), ")"@);
        },
        Cond::Not(a) => {
            law_text_has_marks(*a);
            sql::lemma_count_add("NOT ("@, cond_text(*a), '?');
            sql::lemma_count_add("NOT ("@ + cond_text(*a), ")"@, '?');
        },
    }
}

proof fn lemma_count_five(a: Seq<char>, b: Seq<char>, c: Seq<char>, d: Seq<char>, e: Seq<char>)
    ensures
        sql::count(a + b + c + d + e, '?') == sql::count(a, '?') + sql::count(b, '?') + sql::count(c, '?')
            + sql::count(d, '?') + sql::count(e, '?'),
{
    sql::lemma_count_add(a, b, '?');
    sql::lemma_count_add(a + b, c, '?');
    sql::lemma_count_add(a + b + c, d, '?');
    sql::lemma_count_add(a + b + c + d, e, '?');
}

proof fn lemma_no_marks()
    ensures
        sql::count("1=1"@, '?') == 0,
        sql::count("0=1"@, '?') == 0,
        sql::count("("@, '?') == 0,
        sql::count(")"@, '?') == 0,
        sql::count("))"@, '?') == 0,
        sql::count(" AND "@, '?') == 0,
        sql::count(" OR "@, '?') == 0,
        sql::count("NOT ("@, '?') == 0,
        sql::count(
            "EXISTS (SELECT 1 FROM photo_tags pt_term WHERE pt_term.photo_id = p.id AND pt_term.tag_id IN ("@,
            '?',
        ) == 0,
{
    reveal_strlit("1=1");
    reveal_strlit("0=1");
    reveal_strlit("(");
    reveal_strlit(")");
    reveal_strlit("))");
    reveal_strlit(" AND ");
    reveal_strlit(" OR ");
    reveal_strlit("NOT (");
    reveal_strlit(
        "EXISTS (SELECT 1 FROM photo_tags pt_term WHERE pt_term.photo_id = p.id AND pt_term.tag_id IN (",
    );
    sql::lemma_count_none("1=1"@, '?');
    sql::lemma_count_none("0=1"@, '?');
    sql::lemma_count_none("("@, '?');
    sql::lemma_count_none(")"@, '?');
    sql::lemma_count_none("))"@, '?');
    sql::lemma_count_none(" AND "@, '?');
    sql::lemma_count_none(" OR "@, '?');
    sql::lemma_count_none("NOT ("@, '?');
    sql::lemma_count_none(
        "EXISTS (SELECT 1 FROM photo_tags pt_term WHERE pt_term.photo_id = p.id AND pt_term.tag_id IN ("@,
        '?',
    );
}

/// What a search is for: everything matches the empty query; a term asks for one
/// of the tags that it was resolved to, and none is asked for where it was not;
/// AND asks for both, OR for either, NOT for what does not match. The SQL text
/// says the same with the tags of the photo `p`.
pub proof fn law_search_means_what_it_says(a: Query, b: Query, t: Seq<char>, ids: Map<Seq<char>, Vec<i64>>, tags: Set<i64>)
    ensures
        matches_query(Query::All, ids, tags),
        matches_query(Query::Term(t), ids, tags) <==> ids.contains_key(t) && exists|i: int|
            0 <= i < ids[t]@.len() && tags.contains(#[trigger] ids[t]@[i]),
        matches_query(Query::And(Box::new(a), Box::new(b)), ids, tags) <==> matches_query(a, ids, tags)
            && matches_query(b, ids, tags),
        matches_query(Query::Or(Box::new(a), Box::new(b)), ids, tags) <==> matches_query(a, ids, tags)
            || matches_query(b, ids, tags),
        matches_query(Query::Not(Box::new(a)), ids, tags) <==> !matches_query(a, ids, tags),
        sql_text(Query::All, ids) == "1=1"@,
        !ids.contains_key(t) || ids[t]@.len() == 0 ==> sql_text(Query::Term(t), ids) == "0=1"@,
        ids.contains_key(t) && ids[t]@.len() > 0 ==> sql_text(Query::Term(t), ids)
            == "EXISTS (SELECT 1 FROM photo_tags pt_term WHERE pt_term.photo_id = p.id AND pt_term.tag_id IN ("@
            + sql::marks(ids[t]@.len()) + "))"@ && binds_of(Query::Term(t), ids) == ids[t]@,
        sql_text(Query::And(Box::new(a), Box::new(b)), ids) == "("@ + sql_text(a, ids) + " AND "@ + sql_text(b, ids)
            + ")"@,
        sql_text(Query::Or(Box::new(a), Box::new(b)), ids) == "("@ + sql_text(a, ids) + " OR "@ + sql_text(b, ids)
            + ")"@,
        sql_text(Query::Not(Box::new(a)), ids) == "NOT ("@ + sql_text(a, ids) + ")"@,
        binds_of(Query::And(Box::new(a), Box::new(b)), ids) == binds_of(a, ids) + binds_of(b, ids),
        binds_of(Query::Or(Box::new(a), Box::new(b)), ids) == binds_of(a, ids) + binds_of(b, ids),
        binds_of(Query::Not(Box::new(a)), ids) == binds_of(a, ids),
{
    if ids.contains_key(t) {
        assert(ids_for(ids, t) == ids[t]@);
        if exists|i: int| 0 <= i < ids[t]@.len() && tags.contains(#[trigger] ids[t]@[i]) {
            let i = choose|i: int| 0 <= i < ids[t]@.len() && tags.contains(#[trigger] ids[t]@[i]);
            assert(tags.contains(ids_for(ids, t)[i]));
        }
    }
}

/// A query has the terms that stand in it, and no others.
pub proof fn law_terms_stand_in_the_query(a: Query, b: Query, w: Seq<char>, t: Seq<char>)
    ensures
        !terms_of(Query::All).contains(t),
        terms_of(Query::Term(w)).contains(t) <==> t == w,
        terms_of(Query::And(Box::new(a), Box::new(b))).contains(t) <==> terms_of(a).contains(t) || terms_of(b).contains(
            t,
        ),
        terms_of(Query::Or(Box::new(a), Box::new(b))).contains(t) <==> terms_of(a).contains(t) || terms_of(b).contains(
            t,
        ),
        terms_of(Query::Not(Box::new(a))).contains(t) <==> terms_of(a).contains(t),
{
}

/// The text of the condition of a query.
pub open spec fn sql_text(q: Query, ids: Map<Seq<char>, Vec<i64>>) -> Seq<char> {
    cond_text(cond_of(q, ids))
}

/// The terms of a query are all that has to be resolved: whatever other terms
/// are resolved to, the condition and its bind values are the same, and so are
/// the photos that match.
pub proof fn law_terms_are_all_that_counts(
    q: Query,
    ids: Map<Seq<char>, Vec<i64>>,
    others: Map<Seq<char>, Vec<i64>>,
    tags: Set<i64>,
)
    requires
        forall|t: Seq<char>| #[trigger]
            terms_of(q).contains(t) ==> ids.contains_key(t) == others.contains_key(t) && (ids.contains_key(t)
                ==> ids[t]@ == others[t]@),
    ensures
        sql_text(q, ids) == sql_text(q, others),
        binds_of(q, ids) == binds_of(q, others),
        matches_query(q, ids, tags) == matches_query(q, others, tags),
    decreases q,
{
    match q {
        Query::All => {},
        Query::Term(t) => {
            assert(terms_of(q).contains(t));
            assert(ids_for(ids, t) == ids_for(others, t));
        },
        Query::And(a, b) => {
            assert forall|t: Seq<char>| #[trigger] terms_of(*a).contains(t) implies terms_of(q).contains(t) by {}
            assert forall|t: Seq<char>| #[trigger] terms_of(*b).contains(t) implies terms_of(q).contains(t) by {}
            law_terms_are_all_that_counts(*a, ids, others, tags);
            law_terms_are_all_that_counts(*b, ids, others, tags);
        },
        Query::Or(a, b) => {
            assert forall|t: Seq<char>| #[trigger] terms_of(*a).contains(t) implies terms_of(q).contains(t) by {}
            assert forall|t: Seq<char>| #[trigger] terms_of(*b).contains(t) implies terms_of(q).contains(t) by {}
            law_terms_are_all_that_counts(*a, ids, others, tags);
            law_terms_are_all_that_counts(*b, ids, others, tags);
        },
        Query::Not(a) => {
            assert forall|t: Seq<char>| #[trigger] terms_of(*a).contains(t) implies terms_of(q).contains(t) by {}
            law_terms_are_all_that_counts(*a, ids, others, tags);
        },
    }
}

} // verus!
