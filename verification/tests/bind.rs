use neco::syntax::{
    derive_syntax_tree, derive_token, derive_token_set, Attribute, BindError, Data, Declaration,
    Field, Fields, Grammar, TypeExpr, Variant,
};

fn s(text: &str) -> String {
    text.to_string()
}

fn named(name: &str) -> TypeExpr {
    TypeExpr::Named(s(name))
}

fn field(name: &str, ty: TypeExpr) -> Field {
    Field { name: s(name), ty }
}

fn wrapping(name: &str, ty: &str) -> Variant {
    Variant {
        name: s(name),
        fields: Fields::Unnamed(vec![named(ty)]),
    }
}

fn alphabet() -> Grammar {
    derive_token_set(&Declaration {
        name: s("Alphabet"),
        attributes: vec![],
        data: Data::Enum(vec![wrapping("A", "TokenA"), wrapping("B", "TokenB")]),
    })
    .unwrap()
}

fn record(name: &str, fields: Vec<Field>) -> Declaration {
    Declaration {
        name: s(name),
        attributes: vec![Attribute::Paren(s("Alphabet"))],
        data: Data::Struct(Fields::Named(fields)),
    }
}

fn id() -> Field {
    field("id", named("SyntaxTreeId"))
}

fn refused(grammar: &mut Grammar, decl: &Declaration) -> BindError {
    let before = format!("{:?}", grammar);
    let e = derive_syntax_tree(grammar, decl).unwrap_err();
    assert_eq!(before, format!("{:?}", grammar));
    e
}

#[test]
fn an_alphabet_has_one_leaf_for_each_variant() {
    let grammar = alphabet();
    assert_eq!(grammar.len(), 2);
    assert_eq!(grammar.alphabet_name(), "Alphabet");
    assert_eq!(grammar.lookup(&s("TokenA")), Some(0));
    assert_eq!(grammar.lookup(&s("TokenB")), Some(1));
    assert_eq!(grammar.lookup(&s("A")), None);
    assert!(!grammar.is_nullable(0));
    let empty = derive_token_set(&Declaration {
        name: s("Nothing"),
        attributes: vec![],
        data: Data::Enum(vec![]),
    })
    .unwrap();
    assert_eq!(empty.len(), 0);
}

#[test]
fn an_alphabet_is_a_union_of_wrapped_records() {
    let refused = |data: Data| {
        derive_token_set(&Declaration {
            name: s("Alphabet"),
            attributes: vec![],
            data,
        })
        .unwrap_err()
    };
    assert_eq!(refused(Data::Union), BindError::UnsupportedShape);
    assert_eq!(refused(Data::Struct(Fields::Unit)), BindError::UnsupportedShape);
    assert_eq!(
        refused(Data::Enum(vec![
            wrapping("A", "TokenA"),
            Variant { name: s("B"), fields: Fields::Unit },
        ])),
        BindError::UnsupportedShape
    );
    assert_eq!(
        refused(Data::Enum(vec![Variant {
            name: s("A"),
            fields: Fields::Unnamed(vec![named("TokenA"), named("TokenB")]),
        }])),
        BindError::UnsupportedShape
    );
    assert_eq!(
        refused(Data::Enum(vec![Variant {
            name: s("A"),
            fields: Fields::Unnamed(vec![]),
        }])),
        BindError::UnsupportedShape
    );
    assert_eq!(
        refused(Data::Enum(vec![Variant {
            name: s("A"),
            fields: Fields::Named(vec![field("a", named("TokenA"))]),
        }])),
        BindError::UnsupportedShape
    );
    assert_eq!(
        refused(Data::Enum(vec![Variant {
            name: s("A"),
            fields: Fields::Unnamed(vec![TypeExpr::Optional(Box::new(named("TokenA")))]),
        }])),
        BindError::UnsupportedShape
    );
    assert_eq!(
        refused(Data::Enum(vec![wrapping("A", "TokenA"), wrapping("B", "TokenA")])),
        BindError::DuplicateName
    );
}

#[test]
fn a_token_record_has_a_span() {
    let with = |fields: Fields| Declaration {
        name: s("TokenA"),
        attributes: vec![],
        data: Data::Struct(fields),
    };
    assert_eq!(
        derive_token(&with(Fields::Named(vec![id(), field("span", named("Span"))]))),
        Ok(())
    );
    assert_eq!(
        derive_token(&with(Fields::Named(vec![id()]))),
        Err(BindError::MissingSpan)
    );
    assert_eq!(
        derive_token(&with(Fields::Named(vec![]))),
        Err(BindError::MissingSpan)
    );
    assert_eq!(
        derive_token(&with(Fields::Unnamed(vec![named("Span")]))),
        Err(BindError::UnsupportedShape)
    );
    assert_eq!(derive_token(&with(Fields::Unit)), Err(BindError::UnsupportedShape));
    let union = Declaration {
        name: s("TokenA"),
        attributes: vec![],
        data: Data::Union,
    };
    assert_eq!(derive_token(&union), Err(BindError::UnsupportedShape));
    let tagged = Declaration {
        name: s("TokenA"),
        attributes: vec![],
        data: Data::Enum(vec![]),
    };
    assert_eq!(derive_token(&tagged), Err(BindError::UnsupportedShape));
}

#[test]
fn a_production_nominates_the_alphabet_of_its_grammar() {
    let mut grammar = alphabet();
    let mut decl = record("Pair", vec![id(), field("a", named("TokenA"))]);
    decl.attributes = vec![];
    assert_eq!(refused(&mut grammar, &decl), BindError::Attribute);
    decl.attributes = vec![Attribute::Paren(s("Alphabet")), Attribute::Paren(s("Alphabet"))];
    assert_eq!(refused(&mut grammar, &decl), BindError::Attribute);
    decl.attributes = vec![Attribute::Other];
    assert_eq!(refused(&mut grammar, &decl), BindError::Attribute);
    decl.attributes = vec![Attribute::Paren(s("Other"))];
    assert_eq!(refused(&mut grammar, &decl), BindError::ForeignAlphabet);
    decl.attributes = vec![Attribute::Paren(s("Alphabet"))];
    assert_eq!(derive_syntax_tree(&mut grammar, &decl), Ok(2));
    assert_eq!(refused(&mut grammar, &decl), BindError::DuplicateName);
    let leaf_again = record("TokenA", vec![id()]);
    assert_eq!(refused(&mut grammar, &leaf_again), BindError::DuplicateName);
}

#[test]
fn unsupported_shapes_are_refused() {
    let mut grammar = alphabet();
    let of = |data: Data| Declaration {
        name: s("Shape"),
        attributes: vec![Attribute::Paren(s("Alphabet"))],
        data,
    };
    let tuple = of(Data::Struct(Fields::Unnamed(vec![named("TokenA")])));
    assert_eq!(refused(&mut grammar, &tuple), BindError::UnsupportedShape);
    let unit = of(Data::Struct(Fields::Unit));
    assert_eq!(refused(&mut grammar, &unit), BindError::UnsupportedShape);
    let union = of(Data::Union);
    assert_eq!(refused(&mut grammar, &union), BindError::UnsupportedShape);
    let empty = of(Data::Enum(vec![]));
    assert_eq!(refused(&mut grammar, &empty), BindError::UnsupportedShape);
    let bare = of(Data::Enum(vec![
        wrapping("A", "TokenA"),
        Variant { name: s("B"), fields: Fields::Unit },
    ]));
    assert_eq!(refused(&mut grammar, &bare), BindError::UnsupportedShape);
    let two = of(Data::Enum(vec![Variant {
        name: s("A"),
        fields: Fields::Unnamed(vec![named("TokenA"), named("TokenB")]),
    }]));
    assert_eq!(refused(&mut grammar, &two), BindError::UnsupportedShape);
    let no_id = of(Data::Struct(Fields::Named(vec![field("a", named("TokenA"))])));
    assert_eq!(refused(&mut grammar, &no_id), BindError::MissingId);
    assert_eq!(grammar.len(), 2);
}

#[test]
fn fields_are_of_types_that_the_grammar_knows() {
    let mut grammar = alphabet();
    let unknown = record("R", vec![id(), field("a", named("TokenA")), field("c", named("TokenC"))]);
    assert_eq!(refused(&mut grammar, &unknown), BindError::UnknownType);
    // A record cannot hold itself.
    let own = record("R", vec![id(), field("r", named("R"))]);
    assert_eq!(refused(&mut grammar, &own), BindError::UnknownType);
    // What was bound for the earlier fields is taken back.
    let late = record(
        "R",
        vec![
            id(),
            field("a", TypeExpr::Repeat0(Box::new(named("TokenA")))),
            field("b", TypeExpr::Optional(Box::new(named("TokenB")))),
            field("c", TypeExpr::Repeat1(Box::new(named("TokenC")))),
        ],
    );
    assert_eq!(refused(&mut grammar, &late), BindError::UnknownType);
    let variant = Declaration {
        name: s("C"),
        attributes: vec![Attribute::Paren(s("Alphabet"))],
        data: Data::Enum(vec![
            Variant {
                name: s("Many"),
                fields: Fields::Unnamed(vec![TypeExpr::Repeat1(Box::new(named("TokenA")))]),
            },
            wrapping("Other", "TokenC"),
        ]),
    };
    assert_eq!(refused(&mut grammar, &variant), BindError::UnknownType);
    assert_eq!(grammar.len(), 2);
}

#[test]
fn a_repetition_has_to_make_progress() {
    let mut grammar = alphabet();
    let option = || TypeExpr::Optional(Box::new(named("TokenA")));
    let many = record("M", vec![id(), field("m", TypeExpr::Repeat0(Box::new(option())))]);
    assert_eq!(refused(&mut grammar, &many), BindError::NoProgress);
    let some = record(
        "M",
        vec![id(), field("m", TypeExpr::Repeat1(Box::new(TypeExpr::Repeat0(Box::new(named("TokenA"))))))],
    );
    assert_eq!(refused(&mut grammar, &some), BindError::NoProgress);
    let list = record(
        "M",
        vec![id(), field("m", TypeExpr::Punctuated(Box::new(option()), Box::new(option())))],
    );
    assert_eq!(refused(&mut grammar, &list), BindError::NoProgress);
    // One of the two is enough for a punctuated list to move on.
    let item = record(
        "I",
        vec![id(), field("m", TypeExpr::Punctuated(Box::new(named("TokenA")), Box::new(option())))],
    );
    assert_eq!(derive_syntax_tree(&mut grammar, &item), Ok(4));
    let separator = record(
        "S",
        vec![id(), field("m", TypeExpr::Punctuated(Box::new(option()), Box::new(named("TokenB"))))],
    );
    assert_eq!(derive_syntax_tree(&mut grammar, &separator), Ok(7));
    // A record of nothing but its identity matches the empty input.
    let nothing = record("N", vec![id()]);
    let n = derive_syntax_tree(&mut grammar, &nothing).unwrap();
    assert!(grammar.is_nullable(n));
    assert!(grammar.is_nullable(4));
    assert!(!grammar.is_nullable(0));
    let round = record("O", vec![id(), field("m", TypeExpr::Repeat0(Box::new(named("N"))))]);
    assert_eq!(refused(&mut grammar, &round), BindError::NoProgress);
    assert_eq!(grammar.repeat0(n), Err(BindError::NoProgress));
    assert_eq!(grammar.repeat1(n), Err(BindError::NoProgress));
    assert_eq!(grammar.punctuated(n, 4), Err(BindError::NoProgress));
}

#[test]
fn productions_refer_to_productions_before_them() {
    let mut grammar = alphabet();
    assert_eq!(grammar.repeat0(2), Err(BindError::UnknownProduction));
    assert_eq!(grammar.repeat1(7), Err(BindError::UnknownProduction));
    assert_eq!(grammar.optional(2), Err(BindError::UnknownProduction));
    assert_eq!(grammar.punctuated(0, 2), Err(BindError::UnknownProduction));
    assert_eq!(grammar.punctuated(2, 0), Err(BindError::UnknownProduction));
    assert_eq!(
        grammar.sequence(s("S"), vec![s("a"), s("b")], vec![0, 2]),
        Err(BindError::UnknownProduction)
    );
    assert_eq!(
        grammar.choice(s("C"), vec![s("a")], vec![5]),
        Err(BindError::UnknownProduction)
    );
    assert_eq!(
        grammar.sequence(s("S"), vec![s("a")], vec![0, 1]),
        Err(BindError::LabelCount)
    );
    assert_eq!(
        grammar.choice(s("C"), vec![s("a"), s("b")], vec![0]),
        Err(BindError::LabelCount)
    );
    assert_eq!(grammar.len(), 2);
    assert_eq!(grammar.optional(1), Ok(2));
    assert_eq!(grammar.sequence(s("S"), vec![s("a"), s("b")], vec![0, 2]), Ok(3));
    assert!(!grammar.is_nullable(3));
    assert_eq!(grammar.choice(s("C"), vec![s("a"), s("b")], vec![3, 2]), Ok(4));
    assert!(grammar.is_nullable(4));
    assert_eq!(grammar.sequence(s("E"), vec![], vec![]), Ok(5));
    assert!(grammar.is_nullable(5));
    assert_eq!(grammar.choice(s("N"), vec![], vec![]), Ok(6));
    assert!(!grammar.is_nullable(6));
}
