use neco::syntax::{
    gen_next_program_file_id, gen_next_syntax_tree_id, IdentitySource, Span, TokenSet,
    TokenSetMatch, Tokens,
};

#[derive(Debug, Clone, PartialEq)]
enum Letter {
    Vowel(char),
    Consonant(char),
}

#[derive(Debug, PartialEq)]
struct Vowel(char);

impl TokenSet for Letter {
    fn kind(&self) -> usize {
        match self {
            Letter::Vowel(_) => 0,
            Letter::Consonant(_) => 1,
        }
    }
}

impl TokenSetMatch<Letter> for Vowel {
    fn token_match(set: &Letter) -> Option<Vowel> {
        match set {
            Letter::Vowel(c) => Some(Vowel(*c)),
            _ => None,
        }
    }
}

#[test]
fn identifiers_count_up_from_one() {
    let mut ids = IdentitySource::new();
    let a = gen_next_syntax_tree_id(&mut ids).unwrap();
    let b = gen_next_syntax_tree_id(&mut ids).unwrap();
    let file = gen_next_program_file_id(&mut ids).unwrap();
    let c = gen_next_syntax_tree_id(&mut ids).unwrap();
    assert!(a < b && b < c);
    let mut again = IdentitySource::new();
    assert_eq!(gen_next_syntax_tree_id(&mut again), Some(a));
    assert_eq!(gen_next_syntax_tree_id(&mut again), Some(b));
    assert_eq!(gen_next_program_file_id(&mut again), Some(file));
    assert_eq!(gen_next_syntax_tree_id(&mut again), Some(c));
}

#[test]
fn a_spent_source_hands_out_nothing() {
    let mut ids = IdentitySource::starting_at(usize::MAX - 1);
    assert!(gen_next_syntax_tree_id(&mut ids).is_some());
    assert_eq!(gen_next_syntax_tree_id(&mut ids), None);
    assert_eq!(gen_next_program_file_id(&mut ids), None);
    assert_eq!(ids.allocate(), None);
    let mut ids = IdentitySource::starting_at(7);
    assert_eq!(ids.allocate(), Some(7));
    assert_eq!(ids.allocate(), Some(8));
}

#[test]
fn spans_are_equal_by_their_parts() {
    let mut ids = IdentitySource::new();
    let file = gen_next_program_file_id(&mut ids).unwrap();
    let other = gen_next_program_file_id(&mut ids).unwrap();
    assert_eq!(Span::new(), Span::new());
    assert_eq!(Span::new_with_span(file, 3, 9), Span::new_with_span(file, 3, 9));
    assert_ne!(Span::new_with_span(file, 3, 9), Span::new_with_span(other, 3, 9));
    assert_ne!(Span::new_with_span(file, 3, 9), Span::new_with_span(file, 3, 8));
    assert_ne!(Span::new_with_span(file, 0, 0), Span::new());
}

#[test]
fn the_cursor_moves_as_it_is_told() {
    let mut tokens = Tokens::new(vec![
        Letter::Consonant('n'),
        Letter::Vowel('e'),
        Letter::Consonant('c'),
        Letter::Vowel('o'),
    ]);
    assert_eq!(tokens.len(), 4);
    assert_eq!(tokens.get_i(), 0);
    assert_eq!(tokens.get_token(), &Letter::Consonant('n'));
    assert_eq!(tokens.kind(), 1);
    tokens.next();
    assert_eq!(tokens.get_i(), 1);
    assert_eq!(tokens.get_token(), &Letter::Vowel('e'));
    assert_eq!(tokens.kind(), 0);
    assert_eq!(tokens.get_token().token_match::<Vowel>(), Some(Vowel('e')));
    let saved = tokens.get_i();
    tokens.next();
    tokens.next();
    assert_eq!(tokens.get_token(), &Letter::Vowel('o'));
    tokens.next();
    assert_eq!(tokens.get_i(), 4);
    tokens.set_i(saved);
    assert_eq!(tokens.get_i(), 1);
    assert_eq!(tokens.get_token(), &Letter::Vowel('e'));
    tokens.set_i(2);
    assert_eq!(tokens.get_token().token_match::<Vowel>(), None);
}
