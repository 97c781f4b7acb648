use prolog::parser::{Parser, ParserError};
use prolog::term::Term;
use prolog::tokenizer::{SpecialSymbol, Token, Tokenizer};

fn tokens(input: &str) -> Vec<Token> {
    Tokenizer::from_str(input).parse().ok().unwrap()
}

#[test]
fn it_parses_fact() {
    let input = "fact(X, s(oke)).";
    let mut parser = Parser::from_tokens(tokens(input));
    let fact = parser.parse().ok().unwrap();
    assert_eq!(fact.len(), 1);
    assert!(fact[0].is_fact());
    assert_eq!(fact[0].names, vec![String::from("X")]);
}

#[test]
fn it_parses_variable_fact() {
    let input = "Xvar.";
    let mut parser = Parser::from_tokens(tokens(input));
    let var = parser.parse();
    match var {
        Ok(_) => panic!("a bare variable is not a clause"),
        Err(e) => assert_eq!(e.message(), "expected a name at position 0, found Xvar"),
    }
}

#[test]
fn it_parses_nested_fact() {
    let input = "fact(da(ne(X)), s(s(s(s(oke)))), something).";
    let mut parser = Parser::from_tokens(tokens(input));
    let fact = parser.parse().ok().unwrap();
    assert_eq!(fact.len(), 1);
    match &fact[0].head {
        Term::Compound(f, args) => {
            assert_eq!(f, "fact");
            assert_eq!(args.len(), 3);
            assert!(matches!(&args[2], Term::Const(c) if c == "something"));
        }
        _ => panic!("expected a compound head"),
    }
}

#[test]
fn it_parses_rule() {
    let input = "da(X):-ne(nex),da(ne(X)).";
    let mut parser = Parser::from_tokens(tokens(input));
    let rule = parser.parse().ok().unwrap();
    assert_eq!(rule.len(), 1);
    assert_eq!(rule[0].body.len(), 2);
    assert_eq!(rule[0].names.len(), 1);
}

#[test]
fn it_parses_list_of_clauses() {
    let input = "
    nat(c).
    nat(s(X)):-nat(X).
  ";
    let mut parser = Parser::from_tokens(tokens(input));
    let clauses = parser.parse().ok().unwrap();
    assert_eq!(clauses.len(), 2);
    assert!(clauses[0].is_fact());
    assert!(!clauses[1].is_fact());
}

#[test]
fn variables_are_numbered_by_first_occurrence() {
    let mut parser = Parser::from_tokens(tokens("p(Y, X, Y)."));
    let c = parser.parse().ok().unwrap();
    assert_eq!(c[0].names, vec![String::from("Y"), String::from("X")]);
    match &c[0].head {
        Term::Compound(_, args) => {
            assert!(matches!(args[0], Term::Var(0)));
            assert!(matches!(args[1], Term::Var(1)));
            assert!(matches!(args[2], Term::Var(0)));
        }
        _ => panic!("expected a compound head"),
    }
}

#[test]
fn missing_dot_is_reported_with_position() {
    let mut parser = Parser::from_tokens(tokens("p(a) q(b)."));
    match parser.parse() {
        Ok(_) => panic!("Should error"),
        Err(e) => assert_eq!(e.message(), "expected . at position 4, found q"),
    }
}

#[test]
fn expected_error_names_both_tokens() {
    let e = ParserError::expected_error(
        7,
        &Token::SpecialSymbol(SpecialSymbol::RBrace),
        &Token::Variable(String::from("Z")),
    );
    assert_eq!(e.message(), "expected ) at position 7, found Z");
}

#[test]
fn numerals_are_constants() {
    let mut parser = Parser::from_tokens(tokens("len(list(1,list(20,list())),X)."));
    let c = parser.parse().ok().unwrap();
    match &c[0].head {
        Term::Compound(_, args) => match &args[0] {
            Term::Compound(_, inner) => {
                assert!(matches!(&inner[0], Term::Const(s) if s == "1"));
                match &inner[1] {
                    Term::Compound(_, more) => {
                        assert!(matches!(&more[0], Term::Const(s) if s == "20"))
                    }
                    _ => panic!("expected a list"),
                }
            }
            _ => panic!("expected a list"),
        },
        _ => panic!("expected a compound head"),
    }
}
