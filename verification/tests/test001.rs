use neco::syntax::{
    derive_syntax_tree, derive_token, derive_token_set, gen_next_syntax_tree_id, Attribute, Data,
    Declaration, Field, Fields, Grammar, IdentitySource, ParserResult, Span, SyntaxNode,
    SyntaxTree, SyntaxTreeId, Token, TokenSet, TokenSetMatch, TypeExpr, Tokens, Variant,
};

#[derive(Debug, Clone)]
pub struct TokenEq {
    id: SyntaxTreeId,
    span: Span,
    c: char,
}

#[derive(Debug, Clone)]
pub struct TokenLit {
    id: SyntaxTreeId,
    span: Span,
    c: char,
}

#[derive(Debug, Clone)]
pub enum TestToken {
    Eq(TokenEq),
    Lit(TokenLit),
}

impl Token for TokenEq {
    fn span(&self) -> Span {
        self.span
    }
}

impl Token for TokenLit {
    fn span(&self) -> Span {
        self.span
    }
}

impl SyntaxTree for TokenEq {
    fn id(&self) -> SyntaxTreeId {
        self.id
    }
}

impl SyntaxTree for TokenLit {
    fn id(&self) -> SyntaxTreeId {
        self.id
    }
}

impl TokenSet for TestToken {
    fn kind(&self) -> usize {
        match self {
            TestToken::Eq(_) => 0,
            TestToken::Lit(_) => 1,
        }
    }
}

impl SyntaxTree for TestToken {
    fn id(&self) -> SyntaxTreeId {
        match self {
            TestToken::Eq(t) => t.id(),
            TestToken::Lit(t) => t.id(),
        }
    }
}

impl TokenSetMatch<TestToken> for TokenEq {
    fn token_match(set: &TestToken) -> Option<TokenEq> {
        match set {
            TestToken::Eq(t) => Some(t.clone()),
            _ => None,
        }
    }
}

impl TokenSetMatch<TestToken> for TokenLit {
    fn token_match(set: &TestToken) -> Option<TokenLit> {
        match set {
            TestToken::Lit(t) => Some(t.clone()),
            _ => None,
        }
    }
}

fn lit(ids: &mut IdentitySource, c: char) -> TestToken {
    TestToken::Lit(TokenLit {
        id: gen_next_syntax_tree_id(ids).unwrap(),
        span: Span::new(),
        c,
    })
}

fn eq(ids: &mut IdentitySource, c: char) -> TestToken {
    TestToken::Eq(TokenEq {
        id: gen_next_syntax_tree_id(ids).unwrap(),
        span: Span::new(),
        c,
    })
}

struct Productions {
    grammar: Grammar,
    def: usize,
    def2: usize,
    def_or_def2: usize,
}

fn s(text: &str) -> String {
    text.to_string()
}

fn named(name: &str) -> TypeExpr {
    TypeExpr::Named(s(name))
}

fn field(name: &str, ty: &str) -> Field {
    Field {
        name: s(name),
        ty: named(ty),
    }
}

fn wrapping(name: &str, ty: &str) -> Variant {
    Variant {
        name: s(name),
        fields: Fields::Unnamed(vec![named(ty)]),
    }
}

/// What `struct TokenEq { id: SyntaxTreeId, span: Span, c: char }` declares.
fn token_record(name: &str) -> Declaration {
    Declaration {
        name: s(name),
        attributes: vec![],
        data: Data::Struct(Fields::Named(vec![
            field("id", "SyntaxTreeId"),
            field("span", "Span"),
            field("c", "char"),
        ])),
    }
}

/// What `enum TestToken { Eq(TokenEq), Lit(TokenLit) }` declares.
fn test_token() -> Declaration {
    Declaration {
        name: s("TestToken"),
        attributes: vec![],
        data: Data::Enum(vec![wrapping("Eq", "TokenEq"), wrapping("Lit", "TokenLit")]),
    }
}

/// What `struct Def { id, ident: TokenLit, eq: TokenEq, expr: TokenLit }`
/// declares, over the alphabet `TestToken`.
fn def() -> Declaration {
    Declaration {
        name: s("Def"),
        attributes: vec![Attribute::Paren(s("TestToken"))],
        data: Data::Struct(Fields::Named(vec![
            field("id", "SyntaxTreeId"),
            field("ident", "TokenLit"),
            field("eq", "TokenEq"),
            field("expr", "TokenLit"),
        ])),
    }
}

fn def2() -> Declaration {
    Declaration {
        name: s("Def2"),
        attributes: vec![Attribute::Paren(s("TestToken"))],
        data: Data::Struct(Fields::Named(vec![
            field("id", "SyntaxTreeId"),
            field("eq", "TokenEq"),
        ])),
    }
}

fn def_or_def2() -> Declaration {
    Declaration {
        name: s("DefOrDef2"),
        attributes: vec![Attribute::Paren(s("TestToken"))],
        data: Data::Enum(vec![wrapping("Def", "Def"), wrapping("Def2", "Def2")]),
    }
}

fn productions() -> Productions {
    assert_eq!(derive_token(&token_record("TokenEq")), Ok(()));
    assert_eq!(derive_token(&token_record("TokenLit")), Ok(()));
    let mut grammar = derive_token_set(&test_token()).unwrap();
    let def = derive_syntax_tree(&mut grammar, &def()).unwrap();
    let def2 = derive_syntax_tree(&mut grammar, &def2()).unwrap();
    let def_or_def2 = derive_syntax_tree(&mut grammar, &def_or_def2()).unwrap();
    Productions {
        grammar,
        def,
        def2,
        def_or_def2,
    }
}

fn lit_char(node: &SyntaxNode<TestToken>) -> char {
    match node {
        SyntaxNode::Leaf { token, .. } => token.token_match::<TokenLit>().unwrap().c,
        _ => panic!("not a leaf"),
    }
}

fn eq_char(node: &SyntaxNode<TestToken>) -> char {
    match node {
        SyntaxNode::Leaf { token, .. } => token.token_match::<TokenEq>().unwrap().c,
        _ => panic!("not a leaf"),
    }
}

#[test]
fn test001_success_1() {
    let g = productions();
    let mut ids = IdentitySource::new();
    let mut tokens: Tokens<TestToken> = Tokens::new(vec![
        lit(&mut ids, 'x'),
        eq(&mut ids, '='),
        lit(&mut ids, '1'),
    ]);
    let t = tokens.parse(&g.grammar, g.def, &mut ids);
    assert!(t.is_ok());
}

#[test]
fn test001_success_2() {
    let g = productions();
    let mut ids = IdentitySource::new();
    let mut tokens: Tokens<TestToken> = Tokens::new(vec![
        lit(&mut ids, 'x'),
        eq(&mut ids, '='),
        lit(&mut ids, '1'),
    ]);
    let t = tokens.parse(&g.grammar, g.def_or_def2, &mut ids);
    assert!(t.is_ok());
}

#[test]
fn test001_success_3() {
    let g = productions();
    let mut ids = IdentitySource::new();
    let mut tokens: Tokens<TestToken> = Tokens::new(vec![eq(&mut ids, '=')]);
    let t = tokens.parse(&g.grammar, g.def_or_def2, &mut ids);
    assert!(t.is_ok());
}

#[test]
fn test001_fail() {
    let g = productions();
    let mut ids = IdentitySource::new();
    let mut tokens: Tokens<TestToken> = Tokens::new(vec![
        lit(&mut ids, 'x'),
        eq(&mut ids, '='),
        eq(&mut ids, '='),
    ]);
    let t = tokens.parse(&g.grammar, g.def, &mut ids);
    assert!(!t.is_ok())
}

#[test]
fn simple_sequence_success() {
    let g = productions();
    let mut ids = IdentitySource::new();
    let mut tokens: Tokens<TestToken> = Tokens::new(vec![
        lit(&mut ids, 'x'),
        eq(&mut ids, '='),
        lit(&mut ids, '1'),
    ]);
    let t = tokens.parse(&g.grammar, g.def, &mut ids);
    assert_eq!(tokens.get_i(), 3);
    match t {
        ParserResult::Okay(SyntaxNode::Sequence { production, fields, .. }) => {
            assert_eq!(production, g.def);
            assert_eq!(fields.len(), 3);
            let ident = g.grammar.label_index(g.def, &s("ident")).unwrap();
            let eq = g.grammar.label_index(g.def, &s("eq")).unwrap();
            let expr = g.grammar.label_index(g.def, &s("expr")).unwrap();
            assert_eq!(lit_char(&fields[ident]), 'x');
            assert_eq!(eq_char(&fields[eq]), '=');
            assert_eq!(lit_char(&fields[expr]), '1');
        }
        _ => panic!("not a sequence"),
    }
}

#[test]
fn choice_picks_the_first_alternative_that_matches() {
    let g = productions();
    let mut ids = IdentitySource::new();
    let mut tokens: Tokens<TestToken> = Tokens::new(vec![
        lit(&mut ids, 'x'),
        eq(&mut ids, '='),
        lit(&mut ids, '1'),
    ]);
    let t = tokens.parse(&g.grammar, g.def_or_def2, &mut ids);
    assert_eq!(tokens.get_i(), 3);
    match t {
        ParserResult::Okay(SyntaxNode::Choice { production, variant, child }) => {
            assert_eq!(production, g.def_or_def2);
            assert_eq!(variant, 0);
            assert!(matches!(*child, SyntaxNode::Sequence { production, .. } if production == g.def));
        }
        _ => panic!("not a choice"),
    }
}

#[test]
fn choice_falls_through() {
    let g = productions();
    let mut ids = IdentitySource::new();
    let mut tokens: Tokens<TestToken> = Tokens::new(vec![eq(&mut ids, '=')]);
    let t = tokens.parse(&g.grammar, g.def_or_def2, &mut ids);
    assert_eq!(tokens.get_i(), 1);
    match t {
        ParserResult::Okay(SyntaxNode::Choice { variant, child, .. }) => {
            assert_eq!(variant, 1);
            match *child {
                SyntaxNode::Sequence { production, fields, .. } => {
                    assert_eq!(production, g.def2);
                    assert_eq!(fields.len(), 1);
                    assert_eq!(eq_char(&fields[0]), '=');
                }
                _ => panic!("not a sequence"),
            }
        }
        _ => panic!("not a choice"),
    }
}

#[test]
fn sequence_fails_cursor_restored() {
    let g = productions();
    let mut ids = IdentitySource::new();
    let mut tokens: Tokens<TestToken> = Tokens::new(vec![
        lit(&mut ids, 'x'),
        eq(&mut ids, '='),
        eq(&mut ids, '='),
    ]);
    let t = tokens.parse(&g.grammar, g.def, &mut ids);
    assert!(t.is_fail());
    assert!(!t.is_err());
    assert_eq!(tokens.get_i(), 0);
}

#[test]
fn binding_by_hand_gives_the_same_grammar() {
    let bound = productions();
    let mut grammar = Grammar::new(s("TestToken"));
    let token_eq = grammar.leaf(s("TokenEq"), 0);
    let token_lit = grammar.leaf(s("TokenLit"), 1);
    let def = grammar
        .sequence(
            s("Def"),
            vec![s("ident"), s("eq"), s("expr")],
            vec![token_lit, token_eq, token_lit],
        )
        .unwrap();
    let def2 = grammar
        .sequence(s("Def2"), vec![s("eq")], vec![token_eq])
        .unwrap();
    let def_or_def2 = grammar
        .choice(s("DefOrDef2"), vec![s("Def"), s("Def2")], vec![def, def2])
        .unwrap();
    assert_eq!((def, def2, def_or_def2), (bound.def, bound.def2, bound.def_or_def2));
    assert_eq!(grammar.len(), bound.grammar.len());
    assert_eq!(format!("{:?}", grammar), format!("{:?}", bound.grammar));
    assert_eq!(bound.grammar.lookup(&s("TokenLit")), Some(token_lit));
    assert_eq!(bound.grammar.lookup(&s("Def2")), Some(def2));
    assert_eq!(bound.grammar.lookup(&s("Nothing")), None);
    assert_eq!(bound.grammar.label_index(def, &s("expr")), Some(2));
    assert_eq!(bound.grammar.label_index(def, &s("id")), None);
    assert_eq!(bound.grammar.label_index(def_or_def2, &s("Def2")), Some(1));
}

#[test]
fn sequences_are_stamped_with_fresh_identifiers() {
    let g = productions();
    let mut ids = IdentitySource::new();
    let mut tokens: Tokens<TestToken> = Tokens::new(vec![
        lit(&mut ids, 'x'),
        eq(&mut ids, '='),
        lit(&mut ids, '1'),
    ]);
    // The three tokens hold the identifiers 1, 2 and 3.
    let first = tokens.parse(&g.grammar, g.def_or_def2, &mut ids);
    let first_id = match &first {
        ParserResult::Okay(node) => node.id().unwrap(),
        _ => panic!("no match"),
    };
    tokens.set_i(0);
    let second = tokens.parse(&g.grammar, g.def, &mut ids);
    let (second_id, leaf_ids) = match &second {
        ParserResult::Okay(SyntaxNode::Sequence { id, fields, .. }) => (
            *id,
            fields.iter().map(|f| f.id().unwrap()).collect::<Vec<_>>(),
        ),
        _ => panic!("no match"),
    };
    let mut next = IdentitySource::starting_at(4);
    assert_eq!(Some(first_id), gen_next_syntax_tree_id(&mut next));
    assert_eq!(Some(second_id), gen_next_syntax_tree_id(&mut next));
    assert_eq!(gen_next_syntax_tree_id(&mut ids), gen_next_syntax_tree_id(&mut next));
    let mut stamps = IdentitySource::new();
    let expected: Vec<SyntaxTreeId> = (0..3)
        .map(|_| gen_next_syntax_tree_id(&mut stamps).unwrap())
        .collect();
    assert_eq!(leaf_ids, expected);
}

#[test]
fn a_failed_alternative_keeps_its_identifiers() {
    // Pair = (Def2, Def2); Either = Pair | Def2. On one `=` the pair
    // stamps its first Def2 before it fails, and that stamp is not given
    // again.
    let mut g = productions();
    let pair = g
        .grammar
        .sequence(s("Pair"), vec![s("a"), s("b")], vec![g.def2, g.def2])
        .unwrap();
    let either = g
        .grammar
        .choice(s("Either"), vec![s("Pair"), s("Def2")], vec![pair, g.def2])
        .unwrap();
    let mut ids = IdentitySource::new();
    let mut tokens: Tokens<TestToken> = Tokens::new(vec![eq(&mut ids, '=')]);
    let t = tokens.parse(&g.grammar, either, &mut ids);
    assert_eq!(tokens.get_i(), 1);
    let mut expected = IdentitySource::starting_at(3);
    match t {
        ParserResult::Okay(SyntaxNode::Choice { variant, child, .. }) => {
            assert_eq!(variant, 1);
            assert_eq!(child.id(), gen_next_syntax_tree_id(&mut expected));
        }
        _ => panic!("not a choice"),
    }
    assert_eq!(gen_next_syntax_tree_id(&mut ids), gen_next_syntax_tree_id(&mut expected));
}

#[test]
fn a_leaf_fails_at_the_end_of_the_tokens() {
    let g = productions();
    let mut ids = IdentitySource::new();
    let mut tokens: Tokens<TestToken> = Tokens::new(vec![]);
    let token_eq = g.grammar.lookup(&s("TokenEq")).unwrap();
    assert!(tokens.parse(&g.grammar, token_eq, &mut ids).is_fail());
    assert!(tokens.parse(&g.grammar, g.def_or_def2, &mut ids).is_fail());
    assert_eq!(tokens.get_i(), 0);
    let mut tokens: Tokens<TestToken> = Tokens::new(vec![lit(&mut ids, 'x')]);
    assert!(tokens.parse(&g.grammar, token_eq, &mut ids).is_fail());
    assert_eq!(tokens.get_i(), 0);
    tokens.next();
    assert_eq!(tokens.get_i(), 1);
    assert!(tokens.parse(&g.grammar, token_eq, &mut ids).is_fail());
    assert_eq!(tokens.get_i(), 1);
}

#[test]
fn the_parse_cannot_go_on_without_identifiers() {
    let g = productions();
    let mut ids = IdentitySource::new();
    let stream = vec![lit(&mut ids, 'x'), eq(&mut ids, '='), lit(&mut ids, '1')];
    let mut tokens: Tokens<TestToken> = Tokens::new(stream);
    let mut spent = IdentitySource::starting_at(usize::MAX);
    assert_eq!(gen_next_syntax_tree_id(&mut spent), None);
    let t = tokens.parse(&g.grammar, g.def, &mut spent);
    assert!(t.is_err());
    assert!(!t.is_fail());
    assert!(!t.is_ok());
    // A choice hands the trouble on and does not try its next alternative.
    tokens.set_i(0);
    assert!(tokens.parse(&g.grammar, g.def_or_def2, &mut spent).is_err());
    // With one identifier left the sequence is stamped with it.
    tokens.set_i(0);
    let mut last = IdentitySource::starting_at(usize::MAX - 1);
    assert!(tokens.parse(&g.grammar, g.def, &mut last).is_ok());
    assert_eq!(gen_next_syntax_tree_id(&mut last), None);
}

fn item_list(ids: &mut IdentitySource, text: &str) -> Tokens<TestToken> {
    Tokens::new(
        text.chars()
            .map(|c| if c == '=' { eq(ids, c) } else { lit(ids, c) })
            .collect(),
    )
}

fn count(node: &SyntaxNode<TestToken>) -> (usize, usize) {
    match node {
        SyntaxNode::Punctuated { items, separators } => (items.len(), separators.len()),
        SyntaxNode::Repeat0 { items } => (items.len(), 0),
        SyntaxNode::Repeat1 { items } => (items.len(), 0),
        _ => panic!("not a list"),
    }
}

#[test]
fn repetition_ends_where_the_item_first_refuses() {
    let mut g = productions();
    let token_lit = g.grammar.lookup(&s("TokenLit")).unwrap();
    let many = g.grammar.repeat0(token_lit).unwrap();
    let some = g.grammar.repeat1(token_lit).unwrap();
    let mut ids = IdentitySource::new();
    let mut tokens = item_list(&mut ids, "ab=c");
    match tokens.parse(&g.grammar, many, &mut ids) {
        ParserResult::Okay(node) => assert_eq!(count(&node), (2, 0)),
        _ => panic!("a repetition does not fail"),
    }
    assert_eq!(tokens.get_i(), 2);
    assert!(tokens.parse(&g.grammar, token_lit, &mut ids).is_fail());
    match tokens.parse(&g.grammar, many, &mut ids) {
        ParserResult::Okay(node) => assert_eq!(count(&node), (0, 0)),
        _ => panic!("a repetition does not fail"),
    }
    assert_eq!(tokens.get_i(), 2);
    assert!(tokens.parse(&g.grammar, some, &mut ids).is_fail());
    assert_eq!(tokens.get_i(), 2);
    tokens.set_i(3);
    match tokens.parse(&g.grammar, some, &mut ids) {
        ParserResult::Okay(node) => assert_eq!(count(&node), (1, 0)),
        _ => panic!("one item is there"),
    }
    assert_eq!(tokens.get_i(), 4);
    match tokens.parse(&g.grammar, many, &mut ids) {
        ParserResult::Okay(node) => assert_eq!(count(&node), (0, 0)),
        _ => panic!("a repetition does not fail"),
    }
}

#[test]
fn an_option_never_fails() {
    let mut g = productions();
    let maybe = g.grammar.optional(g.def2).unwrap();
    let mut ids = IdentitySource::new();
    let mut tokens = item_list(&mut ids, "=x");
    match tokens.parse(&g.grammar, maybe, &mut ids) {
        ParserResult::Okay(SyntaxNode::Optional { item: Some(child) }) => {
            assert!(matches!(*child, SyntaxNode::Sequence { production, .. } if production == g.def2));
        }
        _ => panic!("the item is there"),
    }
    assert_eq!(tokens.get_i(), 1);
    match tokens.parse(&g.grammar, maybe, &mut ids) {
        ParserResult::Okay(SyntaxNode::Optional { item: None }) => {}
        _ => panic!("an option does not fail"),
    }
    assert_eq!(tokens.get_i(), 1);
}

#[test]
fn a_punctuated_list_has_as_many_items_as_separators_or_one_more() {
    let mut g = productions();
    let token_lit = g.grammar.lookup(&s("TokenLit")).unwrap();
    let token_eq = g.grammar.lookup(&s("TokenEq")).unwrap();
    let list = g.grammar.punctuated(token_lit, token_eq).unwrap();
    let cases = [
        ("", (0, 0), 0),
        ("=", (0, 0), 0),
        ("a", (1, 0), 1),
        ("a=", (1, 1), 2),
        ("a=b", (2, 1), 3),
        ("a=b=", (2, 2), 4),
        ("a=b==c", (2, 2), 4),
        ("ab", (1, 0), 1),
        ("a=b=c", (3, 2), 5),
    ];
    for (text, lengths, end) in cases {
        let mut ids = IdentitySource::new();
        let mut tokens = item_list(&mut ids, text);
        match tokens.parse(&g.grammar, list, &mut ids) {
            ParserResult::Okay(node) => assert_eq!(count(&node), lengths),
            _ => panic!("a punctuated list does not fail"),
        }
        assert_eq!(tokens.get_i(), end);
    }
}

#[test]
fn declared_combinators_are_bound_in_place() {
    // struct Block {
    //     open: TokenEq,
    //     rest: Vec<Def>,
    //     id: SyntaxTreeId,
    //     items: Punctuated<one or more TokenLit, TokenEq>,
    //     last: Option<Def2>,
    // }
    let mut g = productions();
    let block = Declaration {
        name: s("Block"),
        attributes: vec![Attribute::Paren(s("TestToken"))],
        data: Data::Struct(Fields::Named(vec![
            field("open", "TokenEq"),
            Field {
                name: s("rest"),
                ty: TypeExpr::Repeat0(Box::new(named("Def"))),
            },
            field("id", "SyntaxTreeId"),
            Field {
                name: s("items"),
                ty: TypeExpr::Punctuated(
                    Box::new(TypeExpr::Repeat1(Box::new(named("TokenLit")))),
                    Box::new(named("TokenEq")),
                ),
            },
            Field {
                name: s("last"),
                ty: TypeExpr::Optional(Box::new(named("Def2"))),
            },
        ])),
    };
    let before = g.grammar.len();
    let production = derive_syntax_tree(&mut g.grammar, &block).unwrap();
    // Four productions for the types built in place, and the block itself.
    assert_eq!(g.grammar.len(), before + 5);
    assert_eq!(production, before + 4);
    assert_eq!(g.grammar.label_index(production, &s("last")), Some(3));
    let mut ids = IdentitySource::new();
    let mut tokens = item_list(&mut ids, "=x=1y=2ab=c==");
    match tokens.parse(&g.grammar, production, &mut ids) {
        ParserResult::Okay(SyntaxNode::Sequence { fields, .. }) => {
            assert_eq!(fields.len(), 4);
            assert_eq!(eq_char(&fields[0]), '=');
            assert_eq!(count(&fields[1]), (2, 0));
            match &fields[2] {
                SyntaxNode::Punctuated { items, separators } => {
                    assert_eq!(items.len(), 2);
                    assert_eq!(separators.len(), 2);
                    assert_eq!(count(&items[0]), (2, 0));
                    assert_eq!(count(&items[1]), (1, 0));
                }
                _ => panic!("not a punctuated list"),
            }
            assert!(matches!(fields[3], SyntaxNode::Optional { item: Some(_) }));
        }
        _ => panic!("no match"),
    }
    assert_eq!(tokens.get_i(), 13);
    // Without the token that opens the block nothing is taken.
    let mut tokens = item_list(&mut ids, "x=1");
    assert!(tokens.parse(&g.grammar, production, &mut ids).is_fail());
    assert_eq!(tokens.get_i(), 0);
    // The list takes every item that it finds, so nothing is left for what
    // follows it.
    let mut tokens = item_list(&mut ids, "=ab=c=x=1=");
    match tokens.parse(&g.grammar, production, &mut ids) {
        ParserResult::Okay(SyntaxNode::Sequence { fields, .. }) => {
            assert_eq!(count(&fields[1]), (0, 0));
            assert_eq!(count(&fields[2]), (4, 4));
            assert!(matches!(fields[3], SyntaxNode::Optional { item: None }));
        }
        _ => panic!("no match"),
    }
    assert_eq!(tokens.get_i(), 10);
}
