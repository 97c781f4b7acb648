use prolog::tokenizer::{lex_classified, CharClass, SpecialSymbol, Token, Tokenizer, TokenizerError};

#[test]
fn it_make_tokens() {
    let clause = "len(list(1,list(2,list())),X).";
    let mut tokenizer = Tokenizer::from_str(clause);
    let r = tokenizer.parse().unwrap();
    assert_eq!(19, r.len());
    println!("{:?}", r);
}

#[test]
fn it_does_not_make_tokens() {
    let clause = "len(list(1,$list(2,list())),X).";
    let mut tokenizer = Tokenizer::from_str(clause);
    let r = tokenizer.parse();
    match r {
        Ok(_) => panic!("Should error"),
        Err(e) => {
            assert_eq!(
                e,
                TokenizerError::BaseError {
                    position: 11,
                    msg: String::from("Unrecognised character")
                }
            );
        }
    };
}

#[test]
fn numbers_have_their_decimal_value() {
    let mut tokenizer = Tokenizer::from_str("p(12, 305)");
    let r = tokenizer.parse().ok().unwrap();
    assert!(matches!(r[2], Token::Number(12)));
    assert!(matches!(r[4], Token::Number(305)));
}

#[test]
fn too_large_number_is_an_error() {
    let mut tokenizer = Tokenizer::from_str("p(4294967296)");
    match tokenizer.parse() {
        Ok(_) => panic!("Should error"),
        Err(e) => assert!(
            e == TokenizerError::BaseError { position: 2, msg: String::from("Number too large") }
        ),
    }
}

#[test]
fn tokens_keep_their_text_and_kind() {
    let mut tokenizer = Tokenizer::from_str("  foo_1(Bar) :- x.");
    let r = tokenizer.parse().ok().unwrap();
    assert_eq!(r.len(), 8);
    assert!(matches!(&r[0], Token::Constant(s) if s == "foo_1"));
    assert!(matches!(r[1], Token::SpecialSymbol(SpecialSymbol::LBrace)));
    assert!(matches!(&r[2], Token::Variable(s) if s == "Bar"));
    assert!(matches!(r[4], Token::SpecialSymbol(SpecialSymbol::Dots)));
    assert!(matches!(r[5], Token::SpecialSymbol(SpecialSymbol::Minus)));
    assert!(matches!(&r[6], Token::Constant(s) if s == "x"));
    assert!(matches!(r[7], Token::SpecialSymbol(SpecialSymbol::Dot)));
}

#[test]
fn empty_text_has_no_tokens() {
    let mut tokenizer = Tokenizer::from_str("   ");
    assert_eq!(tokenizer.parse().ok().unwrap().len(), 0);
}

#[test]
fn lexing_follows_the_given_classes() {
    let plain = CharClass { space: false, upper: false, lower: false, alpha: false };
    let lower = CharClass { space: false, upper: false, lower: true, alpha: true };
    let upper = CharClass { space: false, upper: true, lower: false, alpha: true };
    let space = CharClass { space: true, upper: false, lower: false, alpha: false };
    let text = vec!['p', '(', 'Q', 'r', ')', ' ', '.'];
    let classes = vec![lower, plain, upper, lower, plain, space, plain];
    let r = lex_classified(text, classes).ok().unwrap();
    assert_eq!(r.len(), 5);
    assert!(matches!(&r[0], Token::Constant(s) if s == "p"));
    assert!(matches!(&r[2], Token::Variable(s) if s == "Qr"));
    assert!(matches!(r[4], Token::SpecialSymbol(SpecialSymbol::Dot)));
    let odd = vec!['x'];
    match lex_classified(odd, vec![plain]) {
        Ok(_) => panic!("Should error"),
        Err(e) => assert_eq!(
            e,
            TokenizerError::BaseError { position: 0, msg: String::from("Unrecognised character") }
        ),
    }
}
