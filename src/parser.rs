use vstd::prelude::*;

use crate::ast::{
    balanced, depth, flatten, is_run_token, lemma_depth_concat, lemma_flatten_balanced,
    count_of, lemma_flatten_covers, lemma_flatten_loops, loop_count, max_depth, nesting, opens, lemma_single_kind, prefixes_at_least, repeat, run_token, single_kind,
    lemma_prefixes_concat, lemma_single, wf_body, AST,
};
use crate::lexer::Lexer;
use crate::token::{is_stream, lex_chars, token_of, Token};

verus! {

/// Why a source text does not parse.
#[derive(Clone, Copy, Debug, PartialEq, Eq, Structural)]
pub enum ParseError {
    /// A `]` with no `[` open before it.
    UnexpectedClosingBracket,
    /// The input ended inside a loop.
    UnterminatedLoop,
}

/// The error that a command token sequence (without its `EOF`) is owed, if any:
/// a prefix that closes more loops than it opens comes first, then loops left open.
pub open spec fn parse_error_of(t: Seq<Token>) -> Option<ParseError> {
    if !prefixes_at_least(t, 0) {
        Some(ParseError::UnexpectedClosingBracket)
    } else if depth(t) != 0 {
        Some(ParseError::UnterminatedLoop)
    } else {
        None
    }
}

/// What parsing a command token sequence (without its `EOF`) yields: the error
/// it is owed, or a `Root` of well-formed statements whose tokens are exactly it.
pub open spec fn parses_to(t: Seq<Token>, r: Result<AST, ParseError>) -> bool {
    match parse_error_of(t) {
        Some(e) => r == Err::<AST, ParseError>(e),
        None => r is Ok && r->Ok_0 is Root && flatten(r->Ok_0->Root_0@) == t && wf_body(
            r->Ok_0->Root_0@,
        ),
    }
}

impl ParseError {
    /// A short description for the user.
    pub fn message(&self) -> (r: &'static str)
        ensures
            *self == ParseError::UnexpectedClosingBracket ==> r@ == "unexpected closing bracket"@,
            *self == ParseError::UnterminatedLoop ==> r@ == "unterminated loop"@,
    {
        match self {
            ParseError::UnexpectedClosingBracket => "unexpected closing bracket",
            ParseError::UnterminatedLoop => "unterminated loop",
        }
    }
}

/// Lexes and parses a source text.
pub fn parse_source(source: &str) -> (r: Result<AST, ParseError>)
    ensures
        parses_to(lex_chars(source@), r),
{
    let lexer = Lexer::new(source);
    proof {
        assert(lexer.remaining().drop_last() =~= lex_chars(source@));
    }
    Parser::parse(lexer)
}

/// Text with no command character parses to an empty `Root`.
pub proof fn lemma_comment_only(source: Seq<char>, r: Result<AST, ParseError>)
    requires
        forall|i: int| 0 <= i < source.len() ==> token_of(#[trigger] source[i]) is None,
        parses_to(lex_chars(source), r),
    ensures
        r is Ok && r->Ok_0 is Root && r->Ok_0->Root_0@.len() == 0,
{
    lemma_lex_comments(source);
    assert(depth(Seq::<Token>::empty()) == 0);
    assert(parse_error_of(Seq::<Token>::empty()) is None);
    lemma_flatten_covers(r->Ok_0->Root_0@);
}

proof fn lemma_lex_comments(source: Seq<char>)
    requires
        forall|i: int| 0 <= i < source.len() ==> token_of(#[trigger] source[i]) is None,
    ensures
        lex_chars(source) == Seq::<Token>::empty(),
    decreases source.len(),
{
    if source.len() > 0 {
        assert forall|i: int| 0 <= i < source.drop_first().len() implies token_of(
            #[trigger] source.drop_first()[i],
        ) is None by {
            assert(source.drop_first()[i] == source[i + 1]);
        }
        lemma_lex_comments(source.drop_first());
    }
}

/// `n >= 1` identical movement or arithmetic commands in a row parse to a single
/// leaf of that kind carrying `n`.
pub proof fn lemma_run_merges(k: Token, n: nat, r: Result<AST, ParseError>)
    requires
        is_run_token(k),
        n >= 1,
        parses_to(repeat(k, n), r),
    ensures
        r is Ok && r->Ok_0 is Root,
        r->Ok_0->Root_0@.len() == 1,
        run_token(r->Ok_0->Root_0@[0]) == Some(k),
        count_of(r->Ok_0->Root_0@[0]) == n,
{
    let t = repeat(k, n);
    lemma_no_brackets_run(t);
    let v = r->Ok_0->Root_0@;
    lemma_single_kind(v, k);
    lemma_flatten_covers(v);
    if v.len() >= 2 {
        assert(single_kind(v[v.len() - 2], k));
        assert(single_kind(v.last(), k));
    }
    assert(v.drop_last() =~= Seq::<AST>::empty());
    assert(flatten(v.drop_last()) == Seq::<Token>::empty());
    assert(v.last() == v[0]);
    assert(flatten(v).len() == count_of(v[0]));
}

/// Well-bracketed tokens parse to a tree with one `Loop` per bracket pair,
/// whose loops nest exactly as deep as the brackets do.
pub proof fn lemma_loops_match_brackets(t: Seq<Token>, r: Result<AST, ParseError>)
    requires
        balanced(t),
        parses_to(t, r),
    ensures
        r is Ok && r->Ok_0 is Root,
        loop_count(r->Ok_0->Root_0@) == opens(t),
        nesting(r->Ok_0->Root_0@) == max_depth(t),
{
    lemma_flatten_loops(r->Ok_0->Root_0@);
}

/// `n` print (or read) commands in a row parse to `n` separate leaves.
pub proof fn lemma_io_never_merges(k: Token, n: nat, r: Result<AST, ParseError>)
    requires
        k == Token::PrintChar || k == Token::GetChar,
        parses_to(repeat(k, n), r),
    ensures
        r is Ok && r->Ok_0 is Root,
        r->Ok_0->Root_0@.len() == n,
        forall|j: int| 0 <= j < n ==> single_kind(#[trigger] r->Ok_0->Root_0@[j], k),
{
    let t = repeat(k, n);
    lemma_no_brackets_run(t);
    let v = r->Ok_0->Root_0@;
    lemma_single_kind(v, k);
}

proof fn lemma_no_brackets_run(t: Seq<Token>)
    requires
        forall|i: int| 0 <= i < t.len() ==> crate::ast::delta(#[trigger] t[i]) == 0,
    ensures
        parse_error_of(t) is None,
{
    crate::ast::lemma_no_brackets(t);
}

/// Recursive-descent parser with one token of lookahead.
pub struct Parser {
    lexer: Lexer,
    current: Token,
}

impl Parser {
    /// The tokens not yet consumed, the current one first.
    pub closed spec fn stream(&self) -> Seq<Token> {
        seq![self.current] + self.lexer.remaining()
    }

    pub closed spec fn current_token(&self) -> Token {
        self.current
    }

    pub closed spec fn position(&self) -> nat {
        self.lexer.position()
    }

    pub closed spec fn wf(&self) -> bool {
        &&& self.lexer.wf()
        &&& is_stream(self.stream())
        &&& self.current != Token::EOF ==> self.lexer.position() >= 1
    }

    /// The current token heads the stream, which ends with its only `EOF`.
    pub proof fn lemma_wf(&self)
        requires
            self.wf(),
        ensures
            self.stream()[0] == self.current_token(),
            is_stream(self.stream()),
            self.position() <= usize::MAX,
            self.current_token() == Token::EOF ==> self.stream() == seq![Token::EOF],
            self.current_token() != Token::EOF ==> self.stream().len() >= 2,
    {
        self.lexer.lemma_stream();
        assert(self.stream()[0] == self.current);
        if self.current == Token::EOF {
            assert(self.stream() =~= seq![Token::EOF]);
        }
    }

    /// Parses a whole token stream into a `Root`.
    pub fn parse(mut lexer: Lexer) -> (r: Result<AST, ParseError>)
        requires
            lexer.wf(),
            is_stream(lexer.remaining()),
        ensures
            parses_to(lexer.remaining().drop_last(), r),
    {
        let ghost start = lexer.remaining();
        let token = lexer.next().unwrap();
        proof {
            lexer.lemma_stream();
            assert(seq![token] + lexer.remaining() =~= start);
        }
        let mut parser = Parser { lexer, current: token };
        parser.parse_root()
    }

    fn advance(&mut self) -> (r: Token)
        requires
            old(self).wf(),
            old(self).current_token() != Token::EOF,
        ensures
            final(self).wf(),
            r == old(self).current_token(),
            old(self).stream() == seq![r] + final(self).stream(),
            final(self).position() >= old(self).position(),
            final(self).current_token() != Token::EOF
                ==> final(self).position() > old(self).position(),
    {
        proof {
            self.lemma_wf();
        }
        let current = self.current;
        let next = self.lexer.next();
        self.current = next.unwrap();
        proof {
            assert(old(self).stream().drop_first() =~= self.stream());
            assert(old(self).stream() =~= seq![current] + self.stream());
            assert forall|i: int| 0 <= i < self.stream().len() - 1 implies self.stream()[i]
                != Token::EOF by {
                assert(self.stream()[i] == old(self).stream()[i + 1]);
            }
        }
        current
    }

    /// Consumes the current token, which must be `expected`.
    pub fn eat(&mut self, expected: Token) -> (r: Token)
        requires
            old(self).wf(),
            old(self).current_token() == expected,
            expected != Token::EOF,
        ensures
            final(self).wf(),
            r == expected,
            old(self).stream() == seq![r] + final(self).stream(),
            final(self).position() >= old(self).position(),
    {
        self.advance()
    }

    /// Consumes a run of identical counted tokens and returns its length.
    fn parse_run(&mut self) -> (n: usize)
        requires
            old(self).wf(),
            is_run_token(old(self).current_token()),
        ensures
            final(self).wf(),
            n >= 1,
            old(self).stream() == repeat(old(self).current_token(), n as nat)
                + final(self).stream(),
            final(self).current_token() != old(self).current_token(),
    {
        let k = self.current;
        self.advance();
        let mut n: usize = 1;
        proof {
            assert(old(self).stream() =~= repeat(k, 1) + self.stream());
        }
        while self.current == k
            invariant
                self.wf(),
                is_run_token(k),
                1 <= n <= self.position(),
                self.current_token() != Token::EOF ==> n + 1 <= self.position(),
                old(self).stream() == repeat(k, n as nat) + self.stream(),
            decreases self.stream().len(),
        {
            let ghost before = self.stream();
            self.advance();
            proof {
                self.lemma_wf();
                assert(repeat(k, n as nat) + before =~= repeat(k, (n + 1) as nat) + self.stream());
            }
            n = n + 1;
        }
        n
    }

    /// Parses one statement (anything but `]` and `EOF`) and appends it.
    fn parse_statement(&mut self, statments: &mut Vec<AST>) -> (r: Result<(), ParseError>)
        requires
            old(self).wf(),
            old(self).current_token() != Token::EOF,
            old(self).current_token() != Token::EndLoop,
            wf_body(old(statments)@),
            old(statments)@.len() > 0 ==> run_token(old(statments)@.last()) != Some(
                old(self).current_token(),
            ),
        ensures
            r is Ok ==> {
                &&& final(self).wf()
                &&& wf_body(final(statments)@)
                &&& flatten(final(statments)@) + final(self).stream() == flatten(old(statments)@)
                    + old(self).stream()
                &&& final(self).stream().len() < old(self).stream().len()
                &&& final(statments)@.len() > 0
                &&& run_token(final(statments)@.last()) != Some(final(self).current_token())
            },
            r is Err ==> {
                &&& r == Err::<(), ParseError>(ParseError::UnterminatedLoop)
                &&& old(self).current_token() == Token::StartLoop
                &&& prefixes_at_least(old(self).stream().drop_last(), 1)
            },
        decreases old(self).stream().len(), 1nat,
    {
        let ghost v = statments@;
        let ghost s0 = self.stream();
        let node = match self.current {
            Token::StartLoop => match self.parse_loop() {
                Ok(node) => node,
                Err(e) => {
                    return Err(e);
                },
            },
            Token::PrintChar => {
                self.advance();
                AST::PrintChar
            },
            Token::GetChar => {
                self.advance();
                AST::GetChar
            },
            _ => {
                let k = self.current;
                let n = self.parse_run();
                match k {
                    Token::Right => AST::Right(n),
                    Token::Left => AST::Left(n),
                    Token::Add => AST::Add(n),
                    _ => AST::Subtract(n),
                }
            },
        };
        statments.push(node);
        proof {
            assert(statments@.drop_last() =~= v);
            assert(flatten(statments@) + self.stream() =~= flatten(v) + s0);
        }
        Ok(())
    }

    /// Parses statements up to `EOF` into a `Root`.
    pub fn parse_root(&mut self) -> (r: Result<AST, ParseError>)
        requires
            old(self).wf(),
        ensures
            parses_to(old(self).stream().drop_last(), r),
            r is Ok ==> final(self).wf() && final(self).stream() == seq![Token::EOF],
    {
        let ghost t = self.stream().drop_last();
        let mut statments: Vec<AST> = Vec::new();
        proof {
            assert(flatten(statments@) + self.stream() =~= old(self).stream());
        }
        while self.current != Token::EOF
            invariant
                self.wf(),
                wf_body(statments@),
                flatten(statments@) + self.stream() == old(self).stream(),
                statments@.len() > 0 ==> run_token(statments@.last()) != Some(
                    self.current_token(),
                ),
                t == old(self).stream().drop_last(),
            decreases self.stream().len(),
        {
            proof {
                self.lemma_wf();
                lemma_flatten_balanced(statments@);
            }
            let ghost f = flatten(statments@);
            let ghost s = self.stream();
            if self.current == Token::EndLoop {
                proof {
                    let i: int = f.len() as int + 1;
                    assert(t =~= f + s.drop_last());
                    assert(t.take(i) =~= f + seq![Token::EndLoop]);
                    lemma_depth_concat(f, seq![Token::EndLoop]);
                    lemma_single(Token::EndLoop);
                    assert(depth(t.take(i)) < 0);
                }
                return Err(ParseError::UnexpectedClosingBracket);
            }
            match self.parse_statement(&mut statments) {
                Ok(()) => {},
                Err(e) => {
                    proof {
                        let u = s.drop_last();
                        assert(t =~= f + u);
                        lemma_prefixes_concat(f, u, 0);
                        lemma_depth_concat(f, u);
                        assert(u.take(u.len() as int) =~= u);
                    }
                    return Err(e);
                },
            }
        }
        proof {
            self.lemma_wf();
            assert(t =~= flatten(statments@));
            lemma_flatten_balanced(statments@);
        }
        Ok(AST::Root(statments))
    }

    /// Parses a `[`, the statements of its body and the matching `]`.
    pub fn parse_loop(&mut self) -> (r: Result<AST, ParseError>)
        requires
            old(self).wf(),
            old(self).current_token() == Token::StartLoop,
        ensures
            r is Ok ==> {
                &&& final(self).wf()
                &&& r->Ok_0 is Loop
                &&& wf_body(r->Ok_0->Loop_0@)
                &&& old(self).stream() == seq![Token::StartLoop] + flatten(r->Ok_0->Loop_0@)
                    + seq![Token::EndLoop] + final(self).stream()
            },
            r is Err ==> {
                &&& r == Err::<AST, ParseError>(ParseError::UnterminatedLoop)
                &&& prefixes_at_least(old(self).stream().drop_last(), 1)
            },
        decreases old(self).stream().len(), 0nat,
    {
        let ghost s0 = self.stream();
        self.eat(Token::StartLoop);
        let mut statments: Vec<AST> = Vec::new();
        proof {
            assert(seq![Token::StartLoop] + flatten(statments@) + self.stream() =~= s0);
        }
        while self.current != Token::EndLoop
            invariant
                self.wf(),
                wf_body(statments@),
                seq![Token::StartLoop] + flatten(statments@) + self.stream() == s0,
                statments@.len() > 0 ==> run_token(statments@.last()) != Some(
                    self.current_token(),
                ),
                s0 == old(self).stream(),
            decreases self.stream().len(),
        {
            proof {
                self.lemma_wf();
                lemma_flatten_balanced(statments@);
                lemma_single(Token::StartLoop);
                lemma_prefixes_concat(seq![Token::StartLoop], flatten(statments@), 1);
                lemma_depth_concat(seq![Token::StartLoop], flatten(statments@));
            }
            let ghost f = seq![Token::StartLoop] + flatten(statments@);
            let ghost s = self.stream();
            if self.current == Token::EOF {
                proof {
                    assert(s0.drop_last() =~= f);
                }
                return Err(ParseError::UnterminatedLoop);
            }
            let ghost g = flatten(statments@);
            match self.parse_statement(&mut statments) {
                Ok(()) => {
                    proof {
                        let s2 = seq![Token::StartLoop];
                        assert(s2 + flatten(statments@) + self.stream() =~= s2 + (flatten(
                            statments@,
                        ) + self.stream()));
                        assert(s2 + g + s =~= s2 + (g + s));
                    }
                },
                Err(e) => {
                    proof {
                        let u = s.drop_last();
                        assert(s0.drop_last() =~= f + u);
                        lemma_prefixes_concat(f, u, 1);
                    }
                    return Err(e);
                },
            }
        }
        let ghost s1 = self.stream();
        self.eat(Token::EndLoop);
        proof {
            assert(s0 =~= seq![Token::StartLoop] + flatten(statments@) + seq![Token::EndLoop]
                + self.stream());
        }
        Ok(AST::Loop(statments))
    }
}

} // verus!
