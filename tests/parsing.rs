use bfc::ast::AST;
use bfc::lexer::Lexer;
use bfc::parser::{parse_source, ParseError, Parser};
use bfc::token::Token;

#[test]
fn lexer_skips_comments_and_ends_once() {
    let mut lexer = Lexer::new("a+ b[ é]\n.");
    assert_eq!(lexer.peek(), Some(Token::Add));
    assert_eq!(lexer.next(), Some(Token::Add));
    assert_eq!(lexer.next(), Some(Token::StartLoop));
    assert_eq!(lexer.next(), Some(Token::EndLoop));
    assert_eq!(lexer.next(), Some(Token::PrintChar));
    assert_eq!(lexer.peek(), Some(Token::EOF));
    assert_eq!(lexer.next(), Some(Token::EOF));
    assert_eq!(lexer.peek(), None);
    assert_eq!(lexer.next(), None);
}

#[test]
fn lexer_maps_all_eight_commands() {
    let mut lexer = Lexer::new("><+-.,[]");
    let expected = [
        Token::Right,
        Token::Left,
        Token::Add,
        Token::Subtract,
        Token::PrintChar,
        Token::GetChar,
        Token::StartLoop,
        Token::EndLoop,
        Token::EOF,
    ];
    for t in expected {
        assert_eq!(lexer.next(), Some(t));
    }
    assert_eq!(lexer.next(), None);
}

#[test]
fn comment_only_source_gives_empty_root() {
    assert_eq!(parse_source(""), Ok(AST::Root(vec![])));
    assert_eq!(parse_source("hello world\n 123 ~!"), Ok(AST::Root(vec![])));
}

#[test]
fn identical_commands_merge_into_one_leaf() {
    assert_eq!(parse_source("+++++"), Ok(AST::Root(vec![AST::Add(5)])));
    assert_eq!(parse_source(">> >"), Ok(AST::Root(vec![AST::Right(3)])));
    assert_eq!(parse_source("<"), Ok(AST::Root(vec![AST::Left(1)])));
    assert_eq!(parse_source("-x-"), Ok(AST::Root(vec![AST::Subtract(2)])));
}

#[test]
fn different_commands_break_a_run() {
    assert_eq!(
        parse_source("++-++>"),
        Ok(AST::Root(vec![AST::Add(2), AST::Subtract(1), AST::Add(2), AST::Right(1)]))
    );
}

#[test]
fn print_and_read_never_merge() {
    assert_eq!(
        parse_source("..,,"),
        Ok(AST::Root(vec![AST::PrintChar, AST::PrintChar, AST::GetChar, AST::GetChar]))
    );
}

#[test]
fn loops_nest_like_brackets() {
    let ast = parse_source("[[-]>[+]]<[]").unwrap();
    assert_eq!(
        ast,
        AST::Root(vec![
            AST::Loop(vec![
                AST::Loop(vec![AST::Subtract(1)]),
                AST::Right(1),
                AST::Loop(vec![AST::Add(1)]),
            ]),
            AST::Left(1),
            AST::Loop(vec![]),
        ])
    );
}

#[test]
fn unmatched_closing_bracket_fails() {
    assert_eq!(parse_source("]"), Err(ParseError::UnexpectedClosingBracket));
    assert_eq!(parse_source("+[-]]"), Err(ParseError::UnexpectedClosingBracket));
    assert_eq!(parse_source("[]][["), Err(ParseError::UnexpectedClosingBracket));
}

#[test]
fn unterminated_loop_fails() {
    assert_eq!(parse_source("["), Err(ParseError::UnterminatedLoop));
    assert_eq!(parse_source("+[[-]"), Err(ParseError::UnterminatedLoop));
}

#[test]
fn parse_error_messages() {
    assert_eq!(ParseError::UnexpectedClosingBracket.message(), "unexpected closing bracket");
    assert_eq!(ParseError::UnterminatedLoop.message(), "unterminated loop");
}

#[test]
fn parser_from_lexer() {
    let ast = Parser::parse(Lexer::new("+++.")).unwrap();
    assert_eq!(ast, AST::Root(vec![AST::Add(3), AST::PrintChar]));
}
