//! The lexer of the Felis language.
//!
//! The input is cut into maximal runs: white space, numbers (digits and
//! underscores after a leading digit), identifiers (letters, digits and
//! underscores after a leading letter or underscore), and single symbols.
//! Every token records where it begins and ends as (line, column), both
//! counted from 1.

use crate::table::{Id, MainTable};
use vstd::prelude::*;

verus! {

/// What `char::is_whitespace` of the standard library answers for `c`:
/// whether `c` has the Unicode property White_Space. The answer depends on
/// nothing but the character.
pub uninterp spec fn char_is_whitespace(c: char) -> bool;

/// `char::is_whitespace` of the standard library. Taken on trust: the call
/// answers `char_is_whitespace` of its argument, that is, the same for the
/// same character every time.
pub assume_specification[ char::is_whitespace ](c: char) -> (r: bool)
    ensures
        r == char_is_whitespace(c),
;

/// `String::push` of the standard library. Taken on trust: after the call
/// the string is what it was, with the character `c` appended at its end.
pub assume_specification[ String::push ](s: &mut String, c: char)
    ensures
        final(s)@ == old(s)@.push(c),
;

/// A position in the text: line and column, both counted from 1.
pub type Position = (nat, nat);

/// Where a token begins and where it ends.
pub type Extent = (Position, Position);

#[derive(Debug, Clone, Copy, PartialEq, Eq, PartialOrd, Ord, Hash)]
pub struct TokenRange {
    begin: (usize, usize),
    end: (usize, usize),
}

impl View for TokenRange {
    type V = Extent;

    closed spec fn view(&self) -> Extent {
        (
            (self.begin.0 as nat, self.begin.1 as nat),
            (self.end.0 as nat, self.end.1 as nat),
        )
    }
}

impl TokenRange {
    pub fn new(begin: (usize, usize), end: (usize, usize)) -> (r: TokenRange)
        ensures
            r@ == ((begin.0 as nat, begin.1 as nat), (end.0 as nat, end.1 as nat)),
    {
        TokenRange { begin, end }
    }
}

#[derive(Debug, Clone, PartialEq, Eq, Hash)]
pub struct TokenSymbol {
    pub range: TokenRange,
    pub c: char,
}

#[derive(Debug, Clone, PartialEq, Eq, Hash)]
pub struct TokenIdent {
    pub range: TokenRange,
    pub ident: String,
}

#[derive(Debug, Clone, PartialEq, Eq, Hash)]
pub struct TokenNumber {
    pub range: TokenRange,
    pub number: String,
}

#[derive(Debug, Clone, PartialEq, Eq, Hash)]
pub struct TokenSpaces {
    pub range: TokenRange,
}

#[derive(Debug, Clone, PartialEq, Eq, Hash)]
pub enum TokenNode {
    Symbol(TokenSymbol),
    Ident(TokenIdent),
    Number(TokenNumber),
    Spaces(TokenSpaces),
}

/// A token as a mathematical value.
pub enum Lexeme {
    Symbol { extent: Extent, c: char },
    Ident { extent: Extent, ident: Seq<char> },
    Number { extent: Extent, number: Seq<char> },
    Spaces { extent: Extent },
}

impl Lexeme {
    /// Where the token begins and where it ends.
    pub open spec fn extent(self) -> Extent {
        match self {
            Lexeme::Symbol { extent, .. } => extent,
            Lexeme::Ident { extent, .. } => extent,
            Lexeme::Number { extent, .. } => extent,
            Lexeme::Spaces { extent } => extent,
        }
    }
}

impl View for TokenNode {
    type V = Lexeme;

    open spec fn view(&self) -> Lexeme {
        match *self {
            TokenNode::Symbol(t) => Lexeme::Symbol { extent: t.range@, c: t.c },
            TokenNode::Ident(t) => Lexeme::Ident { extent: t.range@, ident: t.ident@ },
            TokenNode::Number(t) => Lexeme::Number { extent: t.range@, number: t.number@ },
            TokenNode::Spaces(t) => Lexeme::Spaces { extent: t.range@ },
        }
    }
}

/// The four kinds of token.
pub enum Kind {
    Spaces,
    Number,
    Ident,
    Symbol,
}

pub open spec fn is_digit(c: char) -> bool {
    '0' <= c <= '9'
}

pub open spec fn is_letter(c: char) -> bool {
    'a' <= c <= 'z' || 'A' <= c <= 'Z'
}

/// The kind of the token that begins with `c`, where `space` says whether
/// `c` is white space.
pub open spec fn kind_at(c: char, space: bool) -> Kind {
    if space {
        Kind::Spaces
    } else if is_digit(c) {
        Kind::Number
    } else if is_letter(c) || c == '_' {
        Kind::Ident
    } else {
        Kind::Symbol
    }
}

/// Whether a token of kind `kind` goes on over `c`. A symbol is one
/// character long; a run of white space also takes in every line feed.
pub open spec fn continues(kind: Kind, c: char, space: bool) -> bool {
    match kind {
        Kind::Spaces => c == '\n' || space,
        Kind::Number => is_digit(c) || c == '_',
        Kind::Ident => is_letter(c) || is_digit(c) || c == '_',
        Kind::Symbol => false,
    }
}

/// How many characters from index `i` on a token of kind `kind` goes on over.
pub open spec fn run_len(chars: Seq<char>, spaces: Seq<bool>, i: nat, kind: Kind) -> nat
    recommends
        spaces.len() == chars.len(),
    decreases chars.len() - i,
{
    if i < chars.len() && continues(kind, chars[i as int], spaces[i as int]) {
        1 + run_len(chars, spaces, i + 1, kind)
    } else {
        0
    }
}

/// A run ends inside the text.
pub proof fn lemma_run_len_bound(chars: Seq<char>, spaces: Seq<bool>, i: nat, kind: Kind)
    requires
        i <= chars.len(),
    ensures
        i + run_len(chars, spaces, i, kind) <= chars.len(),
    decreases chars.len() - i,
{
    if i < chars.len() && continues(kind, chars[i as int], spaces[i as int]) {
        lemma_run_len_bound(chars, spaces, i + 1, kind);
    }
}

/// The position after the character `c` inside a run of white space.
pub open spec fn step(c: char, at: Position) -> Position {
    if c == '\n' {
        (at.0 + 1, 1)
    } else {
        (at.0, at.1 + 1)
    }
}

/// The position after the white space `chars[i..j]`, which begins at `at`.
pub open spec fn after_spaces(chars: Seq<char>, i: nat, j: nat, at: Position) -> Position
    decreases j - i,
{
    if i < j {
        after_spaces(chars, i + 1, j, step(chars[i as int], at))
    } else {
        at
    }
}

/// The token of kind `kind` that covers `text` and lies between `begin` and `end`.
pub open spec fn lexeme(kind: Kind, text: Seq<char>, begin: Position, end: Position) -> Lexeme {
    match kind {
        Kind::Spaces => Lexeme::Spaces { extent: (begin, end) },
        Kind::Number => Lexeme::Number { extent: (begin, end), number: text },
        Kind::Ident => Lexeme::Ident { extent: (begin, end), ident: text },
        Kind::Symbol => Lexeme::Symbol { extent: (begin, end), c: text[0] },
    }
}

/// The tokens of `chars[i..]`, where the character at `i` stands at `at` and
/// `spaces[k]` says whether `chars[k]` is white space.
pub open spec fn lex_from(chars: Seq<char>, spaces: Seq<bool>, i: nat, at: Position) -> Seq<Lexeme>
    recommends
        spaces.len() == chars.len(),
    decreases chars.len() - i,
{
    if i < chars.len() {
        let kind = kind_at(chars[i as int], spaces[i as int]);
        let n = 1 + run_len(chars, spaces, i + 1, kind);
        let j = i + n;
        proof {
            lemma_run_len_bound(chars, spaces, i + 1, kind);
        }
        let end = match kind {
            Kind::Spaces => after_spaces(chars, i, j, at),
            _ => (at.0, at.1 + n),
        };
        seq![lexeme(kind, chars.subrange(i as int, j as int), at, end)] + lex_from(
            chars,
            spaces,
            j,
            end,
        )
    } else {
        Seq::empty()
    }
}

/// The tokens of a text follow one another without a gap: the first begins
/// where the text begins, and every other one where the one before it
/// ended.
pub proof fn lemma_lex_tiles(chars: Seq<char>, spaces: Seq<bool>, i: nat, at: Position, k: int)
    requires
        0 <= k < lex_from(chars, spaces, i, at).len(),
    ensures
        lex_from(chars, spaces, i, at)[0].extent().0 == at,
        k > 0 ==> lex_from(chars, spaces, i, at)[k].extent().0 == lex_from(
            chars,
            spaces,
            i,
            at,
        )[k - 1].extent().1,
    decreases chars.len() - i,
{
    if i < chars.len() {
        let kind = kind_at(chars[i as int], spaces[i as int]);
        let n = 1 + run_len(chars, spaces, i + 1, kind);
        let j = i + n;
        lemma_run_len_bound(chars, spaces, i + 1, kind);
        let end = match kind {
            Kind::Spaces => after_spaces(chars, i, j, at),
            _ => (at.0, at.1 + n),
        };
        let first = lexeme(kind, chars.subrange(i as int, j as int), at, end);
        let rest = lex_from(chars, spaces, j, end);
        assert(lex_from(chars, spaces, i, at) == seq![first] + rest);
        assert(first.extent() == (at, end));
        if k > 0 {
            assert((seq![first] + rest)[k] == rest[k - 1]);
            lemma_lex_tiles(chars, spaces, j, end, k - 1);
            if k > 1 {
                assert((seq![first] + rest)[k - 1] == rest[k - 2]);
            }
        }
    }
}

/// The tokens of a whole text.
pub open spec fn lex(chars: Seq<char>, spaces: Seq<bool>) -> Seq<Lexeme> {
    lex_from(chars, spaces, 0, (1, 1))
}

/// For each character of a text, whether it is white space.
pub open spec fn spaces_of(chars: Seq<char>) -> Seq<bool> {
    Seq::new(chars.len(), |k: int| char_is_whitespace(chars[k]))
}

fn is_ascii_digit(c: char) -> (r: bool)
    ensures
        r == is_digit(c),
{
    '0' <= c && c <= '9'
}

fn is_ascii_alphabetic(c: char) -> (r: bool)
    ensures
        r == is_letter(c),
{
    ('a' <= c && c <= 'z') || ('A' <= c && c <= 'Z')
}

/// The tokens of a text, in the order in which they stand in it.
#[derive(Debug, Clone)]
pub struct Tokens {
    token_table: MainTable<TokenNode>,
    root_tokens: Vec<Id<TokenNode>>,
}

impl Tokens {
    /// The identifiers of the tokens, in the order of the text.
    pub closed spec fn roots(&self) -> Seq<Id<TokenNode>> {
        self.root_tokens@
    }

    /// The table that holds the tokens.
    pub closed spec fn table(&self) -> Map<nat, TokenNode> {
        self.token_table@
    }

    /// The tokens as mathematical values, in the order of the text.
    pub open spec fn view(&self) -> Seq<Lexeme> {
        Seq::new(self.roots().len(), |k: int| self.table()[self.roots()[k].value()]@)
    }

    /// The `k`-th token has the identifier `k + 1`, and the table holds
    /// nothing but the tokens.
    pub closed spec fn wf(&self) -> bool {
        &&& self.token_table.wf()
        &&& self.root_tokens.len() == self.token_table.len()
        &&& forall|k: int|
            0 <= k < self.root_tokens.len() ==> (#[trigger] self.root_tokens[k]).value() == k + 1
    }

    /// In a well-formed value every root token is in the table.
    pub proof fn lemma_roots_in_table(&self)
        requires
            self.wf(),
        ensures
            forall|k: int|
                0 <= k < self.roots().len() ==> self.table().contains_key(
                    (#[trigger] self.roots()[k]).value(),
                ),
    {
        self.token_table.lemma_dom();
    }

    pub fn root_tokens(&self) -> (r: &Vec<Id<TokenNode>>)
        ensures
            r@ == self.roots(),
    {
        &self.root_tokens
    }

    pub fn token_table(&self) -> (r: &MainTable<TokenNode>)
        ensures
            r@ == self.table(),
    {
        &self.token_table
    }

    fn push(&mut self, node: TokenNode)
        requires
            old(self).wf(),
            old(self)@.len() < usize::MAX,
        ensures
            final(self).wf(),
            final(self)@ == old(self)@.push(node@),
    {
        proof {
            self.token_table.lemma_dom();
        }
        let id = self.token_table.insert(node);
        self.root_tokens.push(id);
        proof {
            let n = old(self).root_tokens.len() as int;
            assert forall|k: int| 0 <= k < n + 1 implies #[trigger] self@[k] == old(self)@.push(
                node@,
            )[k] by {
                if k < n {
                    assert(self.root_tokens[k] == old(self).root_tokens[k]);
                    assert(old(self).root_tokens[k].value() == k + 1);
                }
            }
            assert(self@ =~= old(self)@.push(node@));
        }
    }

    /// Cuts `chars` into tokens, where `spaces[k]` says whether `chars[k]` is
    /// white space.
    pub fn scan(chars: &Vec<char>, spaces: &Vec<bool>) -> (r: Tokens)
        requires
            spaces.len() == chars.len(),
            chars.len() < usize::MAX,
        ensures
            r.wf(),
            r@ == lex(chars@, spaces@),
    {
        let n = chars.len();
        let mut tokens = Tokens { token_table: MainTable::new(), root_tokens: Vec::new() };
        let mut pos_y: usize = 1;
        let mut pos_x: usize = 1;
        let mut i: usize = 0;
        assert(tokens@ =~= Seq::<Lexeme>::empty());
        while i < n
            invariant
                n == chars.len(),
                n == spaces.len(),
                n < usize::MAX,
                i <= n,
                tokens.wf(),
                tokens@.len() <= i,
                1 <= pos_y <= i + 1,
                1 <= pos_x <= i + 1,
                lex(chars@, spaces@) == tokens@ + lex_from(
                    chars@,
                    spaces@,
                    i as nat,
                    (pos_y as nat, pos_x as nat),
                ),
            decreases n - i,
        {
            let ghost start = i as nat;
            let ghost at: Position = (pos_y as nat, pos_x as nat);
            let ghost kind = kind_at(chars@[i as int], spaces@[i as int]);
            let ghost stop = start + 1 + run_len(chars@, spaces@, start + 1, kind);
            let ghost before = tokens@;
            proof {
                lemma_run_len_bound(chars@, spaces@, start + 1, kind);
            }
            let begin = (pos_y, pos_x);
            let c = chars[i];
            let node = if spaces[i] {
                while i < n && (chars[i] == '\n' || spaces[i])
                    invariant
                        n == chars.len(),
                        n == spaces.len(),
                        n < usize::MAX,
                        start <= i <= n,
                        kind == Kind::Spaces,
                        spaces@[start as int],
                        1 <= pos_y <= i + 1,
                        1 <= pos_x <= i + 1,
                        i + run_len(chars@, spaces@, i as nat, kind) == stop,
                        after_spaces(chars@, start, stop, at) == after_spaces(
                            chars@,
                            i as nat,
                            stop,
                            (pos_y as nat, pos_x as nat),
                        ),
                    decreases n - i,
                {
                    if chars[i] == '\n' {
                        pos_y += 1;
                        pos_x = 1;
                    } else {
                        pos_x += 1;
                    }
                    i += 1;
                }
                TokenNode::Spaces(TokenSpaces { range: TokenRange::new(begin, (pos_y, pos_x)) })
            } else if is_ascii_digit(c) {
                let mut text = String::new();
                while i < n && (is_ascii_digit(chars[i]) || chars[i] == '_')
                    invariant
                        n == chars.len(),
                        n == spaces.len(),
                        n < usize::MAX,
                        start <= i <= n,
                        kind == Kind::Number,
                        is_digit(chars@[start as int]),
                        pos_y == at.0,
                        pos_x == at.1 + (i - start),
                        1 <= pos_x <= i + 1,
                        text@ == chars@.subrange(start as int, i as int),
                        i + run_len(chars@, spaces@, i as nat, kind) == stop,
                    decreases n - i,
                {
                    text.push(chars[i]);
                    pos_x += 1;
                    i += 1;
                    assert(text@ =~= chars@.subrange(start as int, i as int));
                }
                TokenNode::Number(
                    TokenNumber { range: TokenRange::new(begin, (pos_y, pos_x)), number: text },
                )
            } else if is_ascii_alphabetic(c) || c == '_' {
                let mut text = String::new();
                while i < n && (is_ascii_alphabetic(chars[i]) || is_ascii_digit(chars[i])
                    || chars[i] == '_')
                    invariant
                        n == chars.len(),
                        n == spaces.len(),
                        n < usize::MAX,
                        start <= i <= n,
                        kind == Kind::Ident,
                        is_letter(chars@[start as int]) || chars@[start as int] == '_',
                        pos_y == at.0,
                        pos_x == at.1 + (i - start),
                        1 <= pos_x <= i + 1,
                        text@ == chars@.subrange(start as int, i as int),
                        i + run_len(chars@, spaces@, i as nat, kind) == stop,
                    decreases n - i,
                {
                    text.push(chars[i]);
                    pos_x += 1;
                    i += 1;
                    assert(text@ =~= chars@.subrange(start as int, i as int));
                }
                TokenNode::Ident(
                    TokenIdent { range: TokenRange::new(begin, (pos_y, pos_x)), ident: text },
                )
            } else {
                pos_x += 1;
                i += 1;
                TokenNode::Symbol(TokenSymbol { range: TokenRange::new(begin, (pos_y, pos_x)), c })
            };
            proof {
                let rest = lex_from(chars@, spaces@, stop, (pos_y as nat, pos_x as nat));
                assert(i == stop);
                assert(lex_from(chars@, spaces@, start, at) == seq![node@] + rest);
                assert(before + (seq![node@] + rest) =~= before.push(node@) + rest);
            }
            tokens.push(node);
        }
        tokens
    }

    /// Cuts the text `s` into tokens.
    pub fn new(s: &str) -> (r: Tokens)
        requires
            s@.len() < usize::MAX,
        ensures
            r.wf(),
            r@ == lex(s@, spaces_of(s@)),
    {
        let mut chars: Vec<char> = Vec::new();
        let mut spaces: Vec<bool> = Vec::new();
        for c in it: s.chars()
            invariant
                it.seq() == s@,
                chars@ == s@.take(it.index() as int),
                spaces@ == spaces_of(chars@),
        {
            chars.push(c);
            spaces.push(c.is_whitespace());
            assert(chars@ =~= s@.take(it.index() + 1));
            assert(spaces@ =~= spaces_of(chars@));
        }
        assert(chars@ =~= s@);
        Tokens::scan(&chars, &spaces)
    }
}

} // verus!
