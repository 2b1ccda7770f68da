use vstd::prelude::*;

verus! {

/// A lexical symbol of the source language.
#[derive(Clone, Copy, Debug, PartialEq, Eq, Structural)]
pub enum Token {
    Right,
    Left,
    Add,
    Subtract,
    PrintChar,
    GetChar,
    StartLoop,
    EndLoop,
    EOF,
}

/// The token that a source character stands for; `None` for every character
/// that is not one of the eight commands (it is a comment).
pub open spec fn token_of(c: char) -> Option<Token> {
    if c == '>' {
        Some(Token::Right)
    } else if c == '<' {
        Some(Token::Left)
    } else if c == '+' {
        Some(Token::Add)
    } else if c == '-' {
        Some(Token::Subtract)
    } else if c == '.' {
        Some(Token::PrintChar)
    } else if c == ',' {
        Some(Token::GetChar)
    } else if c == '[' {
        Some(Token::StartLoop)
    } else if c == ']' {
        Some(Token::EndLoop)
    } else {
        None
    }
}

/// The command tokens of a source text, in order, comments dropped.
pub open spec fn lex_chars(s: Seq<char>) -> Seq<Token>
    decreases s.len(),
{
    if s.len() == 0 {
        Seq::empty()
    } else {
        match token_of(s[0]) {
            Some(t) => seq![t] + lex_chars(s.drop_first()),
            None => lex_chars(s.drop_first()),
        }
    }
}

/// The whole token stream of a source text: its command tokens, then `EOF`.
pub open spec fn tokens_of(s: Seq<char>) -> Seq<Token> {
    lex_chars(s).push(Token::EOF)
}

/// A token stream that ends with its one and only `EOF`.
pub open spec fn is_stream(t: Seq<Token>) -> bool {
    &&& t.len() >= 1
    &&& t.last() == Token::EOF
    &&& forall|i: int| 0 <= i < t.len() - 1 ==> t[i] != Token::EOF
}

/// Lexing never yields `EOF` itself.
pub proof fn lemma_lex_no_eof(s: Seq<char>)
    ensures
        forall|i: int| 0 <= i < lex_chars(s).len() ==> lex_chars(s)[i] != Token::EOF,
        lex_chars(s).len() <= s.len(),
        is_stream(lex_chars(s).push(Token::EOF)),
    decreases s.len(),
{
    if s.len() > 0 {
        lemma_lex_no_eof(s.drop_first());
    }
}

/// The token for a character, if it is a command.
pub fn classify(c: char) -> (r: Option<Token>)
    ensures
        r == token_of(c),
{
    match c {
        '>' => Some(Token::Right),
        '<' => Some(Token::Left),
        '+' => Some(Token::Add),
        '-' => Some(Token::Subtract),
        '.' => Some(Token::PrintChar),
        ',' => Some(Token::GetChar),
        '[' => Some(Token::StartLoop),
        ']' => Some(Token::EndLoop),
        _ => None,
    }
}

/// Lexing a command character and then the rest.
pub proof fn lemma_lex_step(s: Seq<char>, i: int)
    requires
        0 <= i < s.len(),
    ensures
        lex_chars(s.skip(i)) == match token_of(s[i]) {
            Some(t) => seq![t] + lex_chars(s.skip(i + 1)),
            None => lex_chars(s.skip(i + 1)),
        },
{
    assert(s.skip(i).drop_first() =~= s.skip(i + 1));
}

} // verus!
