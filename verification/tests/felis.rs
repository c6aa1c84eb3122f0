use neco::lang::felis::{
    TokenIdent, TokenNode, TokenNumber, TokenRange, TokenSpaces, TokenSymbol, Tokens,
};

fn nodes(tokens: &Tokens) -> Vec<TokenNode> {
    tokens
        .root_tokens()
        .iter()
        .map(|x| tokens.token_table().get(*x).unwrap().clone())
        .collect()
}

#[test]
fn test_tokens_new_1() {
    let s = r#"1 + 2 * 3"#;
    let tokens = Tokens::new(s);
    assert!(tokens.root_tokens().len() == 9);
    let left: Vec<_> = nodes(&tokens);
    let right = vec![
        TokenNode::Number(TokenNumber{ range: TokenRange::new((1,1),(1,2)), number: "1".to_string() }),
        TokenNode::Spaces(TokenSpaces{ range: TokenRange::new((1,2),(1,3)) }),
        TokenNode::Symbol(TokenSymbol{ range: TokenRange::new((1,3),(1,4)), c: '+' }),
        TokenNode::Spaces(TokenSpaces{ range: TokenRange::new((1,4),(1,5)) }),
        TokenNode::Number(TokenNumber{ range: TokenRange::new((1,5),(1,6)), number: "2".to_string() }),
        TokenNode::Spaces(TokenSpaces{ range: TokenRange::new((1,6),(1,7)) }),
        TokenNode::Symbol(TokenSymbol{ range: TokenRange::new((1,7),(1,8)), c: '*' }),
        TokenNode::Spaces(TokenSpaces{ range: TokenRange::new((1,8),(1,9)) }),
        TokenNode::Number(TokenNumber{ range: TokenRange::new((1,9),(1,10)), number: "3".to_string() }),
    ];
    assert_eq!(left, right);
}

#[test]
fn test_tokens_new_2() {
    let s = r#"abc + d_e * _f"#;
    let tokens = Tokens::new(s);
    assert!(tokens.root_tokens().len() == 9);
    let left: Vec<_> = nodes(&tokens);
    let right = vec![
        TokenNode::Ident(TokenIdent{ range: TokenRange::new((1,1),(1,4)), ident: "abc".to_string() }),
        TokenNode::Spaces(TokenSpaces{ range: TokenRange::new((1,4),(1,5)) }),
        TokenNode::Symbol(TokenSymbol{ range: TokenRange::new((1,5),(1,6)), c: '+' }),
        TokenNode::Spaces(TokenSpaces{ range: TokenRange::new((1,6),(1,7)) }),
        TokenNode::Ident(TokenIdent{ range: TokenRange::new((1,7),(1,10)), ident: "d_e".to_string() }),
        TokenNode::Spaces(TokenSpaces{ range: TokenRange::new((1,10),(1,11)) }),
        TokenNode::Symbol(TokenSymbol{ range: TokenRange::new((1,11),(1,12)), c: '*' }),
        TokenNode::Spaces(TokenSpaces{ range: TokenRange::new((1,12),(1,13)) }),
        TokenNode::Ident(TokenIdent{ range: TokenRange::new((1,13),(1,15)), ident: "_f".to_string() }),
    ];
    assert_eq!(left, right);
}

#[test]
fn empty_text_has_no_tokens() {
    let tokens = Tokens::new("");
    assert!(tokens.root_tokens().is_empty());
}

#[test]
fn line_feeds_move_to_the_next_line() {
    let tokens = Tokens::new("a \n\n  b1_\t9_9x");
    let right = vec![
        TokenNode::Ident(TokenIdent{ range: TokenRange::new((1,1),(1,2)), ident: "a".to_string() }),
        TokenNode::Spaces(TokenSpaces{ range: TokenRange::new((1,2),(3,3)) }),
        TokenNode::Ident(TokenIdent{ range: TokenRange::new((3,3),(3,6)), ident: "b1_".to_string() }),
        TokenNode::Spaces(TokenSpaces{ range: TokenRange::new((3,6),(3,7)) }),
        TokenNode::Number(TokenNumber{ range: TokenRange::new((3,7),(3,10)), number: "9_9".to_string() }),
        TokenNode::Ident(TokenIdent{ range: TokenRange::new((3,10),(3,11)), ident: "x".to_string() }),
    ];
    assert_eq!(nodes(&tokens), right);
}

#[test]
fn letters_outside_ascii_are_symbols() {
    let tokens = Tokens::new("é=\u{3000}");
    let right = vec![
        TokenNode::Symbol(TokenSymbol{ range: TokenRange::new((1,1),(1,2)), c: 'é' }),
        TokenNode::Symbol(TokenSymbol{ range: TokenRange::new((1,2),(1,3)), c: '=' }),
        TokenNode::Spaces(TokenSpaces{ range: TokenRange::new((1,3),(1,4)) }),
    ];
    assert_eq!(nodes(&tokens), right);
}

#[test]
fn scan_goes_by_the_classification_it_is_given() {
    // With nothing marked as white space a blank is a symbol, and a line
    // feed that opens a token is one too.
    let chars = vec!['a', ' ', '\n', '7'];
    let spaces = vec![false, false, false, false];
    let tokens = Tokens::scan(&chars, &spaces);
    let right = vec![
        TokenNode::Ident(TokenIdent{ range: TokenRange::new((1,1),(1,2)), ident: "a".to_string() }),
        TokenNode::Symbol(TokenSymbol{ range: TokenRange::new((1,2),(1,3)), c: ' ' }),
        TokenNode::Symbol(TokenSymbol{ range: TokenRange::new((1,3),(1,4)), c: '\n' }),
        TokenNode::Number(TokenNumber{ range: TokenRange::new((1,4),(1,5)), number: "7".to_string() }),
    ];
    assert_eq!(nodes(&tokens), right);
    // A letter marked as white space opens a run that takes in line feeds.
    let chars = vec!['x', '\n', 'y'];
    let spaces = vec![true, false, false];
    let tokens = Tokens::scan(&chars, &spaces);
    let right = vec![
        TokenNode::Spaces(TokenSpaces{ range: TokenRange::new((1,1),(2,1)) }),
        TokenNode::Ident(TokenIdent{ range: TokenRange::new((2,1),(2,2)), ident: "y".to_string() }),
    ];
    assert_eq!(nodes(&tokens), right);
}
