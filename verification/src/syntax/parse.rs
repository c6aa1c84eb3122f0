//! The parser kernel: what it means to parse a production at a position,
//! and the procedure that does it.

use crate::syntax::grammar::{indices, nullable, rule_ok, rules_ok, Grammar, Rule, Shape};
use crate::syntax::identity::{gen_next_syntax_tree_id, IdentitySource};
use crate::syntax::token::{TokenSet, Tokens};
use crate::syntax::tree::{forest, lemma_forest, lemma_forest_push, SyntaxNode, Tree};
use vstd::prelude::*;

verus! {

/// The outcome of parsing one production.
pub enum Parsed {
    /// The production matched up to `position`.
    Okay { tree: Tree, position: nat, next_id: nat },
    /// The production did not match.
    Fail { next_id: nat },
    /// The parse cannot go on.
    Error,
}

/// The outcome of parsing a list of productions.
pub enum ParsedList {
    Okay { trees: Seq<Tree>, position: nat, next_id: nat },
    Fail { next_id: nat },
    Error,
}

/// The outcome of parsing a punctuated list.
pub enum ParsedPairs {
    Okay { items: Seq<Tree>, separators: Seq<Tree>, position: nat, next_id: nat },
    Error,
}

/// The outcome of parsing the production `p` of `rules` on tokens of the
/// variants `kinds`, from position `i` on, when `n` is the next identifier.
pub open spec fn parse_spec(rules: Seq<Rule>, p: nat, kinds: Seq<nat>, i: nat, n: nat) -> Parsed
    decreases p, 1nat, 0nat,
{
    if p >= rules.len() {
        Parsed::Error
    } else {
        match rules[p as int] {
            Rule::Leaf { kind } => {
                if i < kinds.len() && kinds[i as int] == kind {
                    Parsed::Okay { tree: Tree::Leaf { index: i }, position: i + 1, next_id: n }
                } else {
                    Parsed::Fail { next_id: n }
                }
            },
            Rule::Sequence { fields } => {
                match parse_fields(rules, p, fields, 0, kinds, i, n) {
                    ParsedList::Okay { trees, position, next_id } => {
                        if next_id >= usize::MAX {
                            Parsed::Error
                        } else {
                            Parsed::Okay {
                                tree: Tree::Sequence { id: next_id, production: p, fields: trees },
                                position,
                                next_id: next_id + 1,
                            }
                        }
                    },
                    ParsedList::Fail { next_id } => Parsed::Fail { next_id },
                    ParsedList::Error => Parsed::Error,
                }
            },
            Rule::Choice { alternatives } => parse_alternatives(
                rules,
                p,
                alternatives,
                0,
                kinds,
                i,
                n,
            ),
            Rule::Repeat0 { item } => {
                match parse_many(rules, p, item, kinds, i, n) {
                    ParsedList::Okay { trees, position, next_id } => Parsed::Okay {
                        tree: Tree::Repeat0 { items: trees },
                        position,
                        next_id,
                    },
                    ParsedList::Fail { next_id } => Parsed::Fail { next_id },
                    ParsedList::Error => Parsed::Error,
                }
            },
            Rule::Repeat1 { item } => {
                match parse_many(rules, p, item, kinds, i, n) {
                    ParsedList::Okay { trees, position, next_id } => {
                        if trees.len() == 0 {
                            Parsed::Fail { next_id }
                        } else {
                            Parsed::Okay { tree: Tree::Repeat1 { items: trees }, position, next_id }
                        }
                    },
                    ParsedList::Fail { next_id } => Parsed::Fail { next_id },
                    ParsedList::Error => Parsed::Error,
                }
            },
            Rule::Optional { item } => {
                if item >= p {
                    Parsed::Error
                } else {
                    match parse_spec(rules, item, kinds, i, n) {
                        Parsed::Okay { tree, position, next_id } => Parsed::Okay {
                            tree: Tree::Optional { item: Some(Box::new(tree)) },
                            position,
                            next_id,
                        },
                        Parsed::Fail { next_id } => Parsed::Okay {
                            tree: Tree::Optional { item: None },
                            position: i,
                            next_id,
                        },
                        Parsed::Error => Parsed::Error,
                    }
                }
            },
            Rule::Punctuated { item, separator } => {
                match parse_punctuated(rules, p, item, separator, kinds, i, n) {
                    ParsedPairs::Okay { items, separators, position, next_id } => Parsed::Okay {
                        tree: Tree::Punctuated { items, separators },
                        position,
                        next_id,
                    },
                    ParsedPairs::Error => Parsed::Error,
                }
            },
        }
    }
}

/// The fields of the sequence `p` from the `k`-th on, one after the other.
/// The first that does not match makes the whole sequence fail.
pub open spec fn parse_fields(
    rules: Seq<Rule>,
    p: nat,
    fields: Seq<nat>,
    k: nat,
    kinds: Seq<nat>,
    i: nat,
    n: nat,
) -> ParsedList
    decreases p, 0nat, fields.len() - k,
{
    if k >= fields.len() {
        ParsedList::Okay { trees: Seq::empty(), position: i, next_id: n }
    } else if fields[k as int] >= p {
        ParsedList::Error
    } else {
        match parse_spec(rules, fields[k as int], kinds, i, n) {
            Parsed::Okay { tree, position, next_id } => {
                match parse_fields(rules, p, fields, k + 1, kinds, position, next_id) {
                    ParsedList::Okay { trees, position, next_id } => ParsedList::Okay {
                        trees: seq![tree] + trees,
                        position,
                        next_id,
                    },
                    ParsedList::Fail { next_id } => ParsedList::Fail { next_id },
                    ParsedList::Error => ParsedList::Error,
                }
            },
            Parsed::Fail { next_id } => ParsedList::Fail { next_id },
            Parsed::Error => ParsedList::Error,
        }
    }
}

/// The alternatives of the choice `p` from the `k`-th on, each tried at
/// position `i`. The first that matches is taken.
pub open spec fn parse_alternatives(
    rules: Seq<Rule>,
    p: nat,
    alternatives: Seq<nat>,
    k: nat,
    kinds: Seq<nat>,
    i: nat,
    n: nat,
) -> Parsed
    decreases p, 0nat, alternatives.len() - k,
{
    if k >= alternatives.len() {
        Parsed::Fail { next_id: n }
    } else if alternatives[k as int] >= p {
        Parsed::Error
    } else {
        match parse_spec(rules, alternatives[k as int], kinds, i, n) {
            Parsed::Okay { tree, position, next_id } => Parsed::Okay {
                tree: Tree::Choice { production: p, variant: k, child: Box::new(tree) },
                position,
                next_id,
            },
            Parsed::Fail { next_id } => parse_alternatives(
                rules,
                p,
                alternatives,
                k + 1,
                kinds,
                i,
                next_id,
            ),
            Parsed::Error => Parsed::Error,
        }
    }
}

/// The production `item` as often as it matches, from position `i` on. A
/// round that takes no token cannot be repeated and is an error; in a
/// grammar that is in order there is no such round.
pub open spec fn parse_many(
    rules: Seq<Rule>,
    p: nat,
    item: nat,
    kinds: Seq<nat>,
    i: nat,
    n: nat,
) -> ParsedList
    decreases p, 0nat, kinds.len() - i,
{
    if item >= p {
        ParsedList::Error
    } else {
        match parse_spec(rules, item, kinds, i, n) {
            Parsed::Okay { tree, position, next_id } => {
                if i < position <= kinds.len() {
                    match parse_many(rules, p, item, kinds, position, next_id) {
                        ParsedList::Okay { trees, position, next_id } => ParsedList::Okay {
                            trees: seq![tree] + trees,
                            position,
                            next_id,
                        },
                        ParsedList::Fail { next_id } => ParsedList::Fail { next_id },
                        ParsedList::Error => ParsedList::Error,
                    }
                } else {
                    ParsedList::Error
                }
            },
            Parsed::Fail { next_id } => ParsedList::Okay {
                trees: Seq::empty(),
                position: i,
                next_id,
            },
            Parsed::Error => ParsedList::Error,
        }
    }
}

/// Items and separators in turn, from position `i` on, up to the first
/// that does not match. An item that matched stays, also where no
/// separator follows it.
pub open spec fn parse_punctuated(
    rules: Seq<Rule>,
    p: nat,
    item: nat,
    separator: nat,
    kinds: Seq<nat>,
    i: nat,
    n: nat,
) -> ParsedPairs
    decreases p, 0nat, kinds.len() - i,
{
    if item >= p || separator >= p {
        ParsedPairs::Error
    } else {
        match parse_spec(rules, item, kinds, i, n) {
            Parsed::Okay { tree: first, position: middle, next_id: n1 } => {
                match parse_spec(rules, separator, kinds, middle, n1) {
                    Parsed::Okay { tree: second, position, next_id } => {
                        if i < position <= kinds.len() {
                            match parse_punctuated(
                                rules,
                                p,
                                item,
                                separator,
                                kinds,
                                position,
                                next_id,
                            ) {
                                ParsedPairs::Okay {
                                    items,
                                    separators,
                                    position,
                                    next_id,
                                } => ParsedPairs::Okay {
                                    items: seq![first] + items,
                                    separators: seq![second] + separators,
                                    position,
                                    next_id,
                                },
                                ParsedPairs::Error => ParsedPairs::Error,
                            }
                        } else {
                            ParsedPairs::Error
                        }
                    },
                    Parsed::Fail { next_id } => ParsedPairs::Okay {
                        items: seq![first],
                        separators: Seq::empty(),
                        position: middle,
                        next_id,
                    },
                    Parsed::Error => ParsedPairs::Error,
                }
            },
            Parsed::Fail { next_id } => ParsedPairs::Okay {
                items: Seq::empty(),
                separators: Seq::empty(),
                position: i,
                next_id,
            },
            Parsed::Error => ParsedPairs::Error,
        }
    }
}

/// A parse ends between the position where it began and the end of the
/// tokens, and never gives an identifier back. A production that cannot
/// match the empty input takes at least one token.
pub proof fn lemma_parse_advances(rules: Seq<Rule>, p: nat, kinds: Seq<nat>, i: nat, n: nat)
    requires
        rules_ok(rules),
        p < rules.len(),
        i <= kinds.len(),
    ensures
        match parse_spec(rules, p, kinds, i, n) {
            Parsed::Okay { position, next_id, .. } => {
                &&& i <= position <= kinds.len()
                &&& n <= next_id
                &&& !nullable(rules, p) ==> i < position
            },
            Parsed::Fail { next_id } => n <= next_id,
            Parsed::Error => true,
        },
    decreases p, 1nat, 0nat,
{
    assert(rule_ok(rules, p));
    match rules[p as int] {
        Rule::Leaf { .. } => {},
        Rule::Sequence { fields } => {
            lemma_fields_advance(rules, p, fields, 0, kinds, i, n);
            if !nullable(rules, p) {
                let k = choose|k: int|
                    0 <= k < fields.len() && !(fields[k] < p && nullable(rules, #[trigger] fields[k]));
                assert(!nullable(rules, fields[k]));
            }
        },
        Rule::Choice { alternatives } => {
            lemma_alternatives_advance(rules, p, alternatives, 0, kinds, i, n);
        },
        Rule::Repeat0 { item } => {
            lemma_many_advances(rules, p, item, kinds, i, n);
        },
        Rule::Repeat1 { item } => {
            lemma_many_advances(rules, p, item, kinds, i, n);
        },
        Rule::Optional { item } => {
            lemma_parse_advances(rules, item, kinds, i, n);
        },
        Rule::Punctuated { item, separator } => {
            lemma_punctuated_advances(rules, p, item, separator, kinds, i, n);
        },
    }
}

/// The fields of a sequence: there are as many trees as fields, and a
/// field that cannot match the empty input makes the sequence take a token.
pub proof fn lemma_fields_advance(
    rules: Seq<Rule>,
    p: nat,
    fields: Seq<nat>,
    k: nat,
    kinds: Seq<nat>,
    i: nat,
    n: nat,
)
    requires
        rules_ok(rules),
        p < rules.len(),
        rules[p as int] == (Rule::Sequence { fields }),
        k <= fields.len(),
        i <= kinds.len(),
    ensures
        match parse_fields(rules, p, fields, k, kinds, i, n) {
            ParsedList::Okay { trees, position, next_id } => {
                &&& trees.len() == fields.len() - k
                &&& i <= position <= kinds.len()
                &&& n <= next_id
                &&& forall|j: int|
                    k <= j < fields.len() && !nullable(rules, #[trigger] fields[j]) ==> i < position
            },
            ParsedList::Fail { next_id } => n <= next_id,
            ParsedList::Error => true,
        },
    decreases p, 0nat, fields.len() - k,
{
    assert(rule_ok(rules, p));
    if k < fields.len() {
        assert(rules[p as int]->fields == fields);
        assert(fields[k as int] < p);
        lemma_parse_advances(rules, fields[k as int], kinds, i, n);
        match parse_spec(rules, fields[k as int], kinds, i, n) {
            Parsed::Okay { position, next_id, .. } => {
                lemma_fields_advance(rules, p, fields, k + 1, kinds, position, next_id);
            },
            _ => {},
        }
    }
}

/// The alternatives of a choice: where none of them can match the empty
/// input, the choice takes a token.
pub proof fn lemma_alternatives_advance(
    rules: Seq<Rule>,
    p: nat,
    alternatives: Seq<nat>,
    k: nat,
    kinds: Seq<nat>,
    i: nat,
    n: nat,
)
    requires
        rules_ok(rules),
        p < rules.len(),
        rules[p as int] == (Rule::Choice { alternatives }),
        k <= alternatives.len(),
        i <= kinds.len(),
    ensures
        match parse_alternatives(rules, p, alternatives, k, kinds, i, n) {
            Parsed::Okay { tree, position, next_id } => {
                &&& i <= position <= kinds.len()
                &&& n <= next_id
                &&& tree is Choice
                &&& k <= tree->variant < alternatives.len()
                &&& !nullable(rules, alternatives[tree->variant as int]) ==> i < position
            },
            Parsed::Fail { next_id } => n <= next_id,
            Parsed::Error => true,
        },
    decreases p, 0nat, alternatives.len() - k,
{
    assert(rule_ok(rules, p));
    if k < alternatives.len() {
        assert(rules[p as int]->alternatives == alternatives);
        assert(alternatives[k as int] < p);
        lemma_parse_advances(rules, alternatives[k as int], kinds, i, n);
        match parse_spec(rules, alternatives[k as int], kinds, i, n) {
            Parsed::Fail { next_id } => {
                lemma_alternatives_advance(rules, p, alternatives, k + 1, kinds, i, next_id);
            },
            _ => {},
        }
    }
}

/// A repetition never fails, and with one item or more it takes a token.
pub proof fn lemma_many_advances(
    rules: Seq<Rule>,
    p: nat,
    item: nat,
    kinds: Seq<nat>,
    i: nat,
    n: nat,
)
    requires
        rules_ok(rules),
        p < rules.len(),
        item < p,
        !nullable(rules, item),
        i <= kinds.len(),
    ensures
        match parse_many(rules, p, item, kinds, i, n) {
            ParsedList::Okay { trees, position, next_id } => {
                &&& i <= position <= kinds.len()
                &&& n <= next_id
                &&& trees.len() > 0 ==> i < position
            },
            ParsedList::Fail { .. } => false,
            ParsedList::Error => true,
        },
    decreases p, 0nat, kinds.len() - i,
{
    lemma_parse_advances(rules, item, kinds, i, n);
    match parse_spec(rules, item, kinds, i, n) {
        Parsed::Okay { position, next_id, .. } => {
            lemma_many_advances(rules, p, item, kinds, position, next_id);
        },
        _ => {},
    }
}

/// A punctuated list ends between the position where it began and the end
/// of the tokens, with as many items as separators or one more.
pub proof fn lemma_punctuated_advances(
    rules: Seq<Rule>,
    p: nat,
    item: nat,
    separator: nat,
    kinds: Seq<nat>,
    i: nat,
    n: nat,
)
    requires
        rules_ok(rules),
        p < rules.len(),
        item < p,
        separator < p,
        !(nullable(rules, item) && nullable(rules, separator)),
        i <= kinds.len(),
    ensures
        match parse_punctuated(rules, p, item, separator, kinds, i, n) {
            ParsedPairs::Okay { items, separators, position, next_id } => {
                &&& i <= position <= kinds.len()
                &&& n <= next_id
                &&& items.len() == separators.len() || items.len() == separators.len() + 1
            },
            ParsedPairs::Error => true,
        },
    decreases p, 0nat, kinds.len() - i,
{
    lemma_parse_advances(rules, item, kinds, i, n);
    match parse_spec(rules, item, kinds, i, n) {
        Parsed::Okay { position: middle, next_id: n1, .. } => {
            lemma_parse_advances(rules, separator, kinds, middle, n1);
            match parse_spec(rules, separator, kinds, middle, n1) {
                Parsed::Okay { position, next_id, .. } => {
                    lemma_punctuated_advances(rules, p, item, separator, kinds, position, next_id);
                },
                _ => {},
            }
        },
        _ => {},
    }
}

/// What a parser hands back: a tree, the news that the production does not
/// match here, or the news that the parse cannot go on.
#[derive(Debug, Clone)]
pub enum ParserResult<T> {
    Okay(T),
    Fail,
    Error,
}

impl<T> ParserResult<T> {
    pub fn is_ok(&self) -> (r: bool)
        ensures
            r == (self is Okay),
    {
        matches!(self, ParserResult::Okay(_))
    }

    pub fn is_fail(&self) -> (r: bool)
        ensures
            r == (self is Fail),
    {
        matches!(self, ParserResult::Fail)
    }

    pub fn is_err(&self) -> (r: bool)
        ensures
            r == (self is Error),
    {
        matches!(self, ParserResult::Error)
    }
}

/// `rest` with the trees `front` before its own.
pub open spec fn prepend(front: Seq<Tree>, rest: ParsedList) -> ParsedList {
    match rest {
        ParsedList::Okay { trees, position, next_id } => ParsedList::Okay {
            trees: front + trees,
            position,
            next_id,
        },
        _ => rest,
    }
}

/// `rest` with `items` and `separators` before its own.
pub open spec fn prepend_pairs(items: Seq<Tree>, separators: Seq<Tree>, rest: ParsedPairs) -> ParsedPairs {
    match rest {
        ParsedPairs::Okay { items: i, separators: s, position, next_id } => ParsedPairs::Okay {
            items: items + i,
            separators: separators + s,
            position,
            next_id,
        },
        _ => rest,
    }
}

/// Every node of `nodes` agrees with `tokens`.
pub open spec fn all_agree<T: Clone>(nodes: Seq<SyntaxNode<T>>, tokens: Seq<T>) -> bool {
    forall|k: int| 0 <= k < nodes.len() ==> (#[trigger] nodes[k]).agrees(tokens)
}

/// The result `r` of a parse that began at `entry`, with the cursor now at
/// `position` and `next_id` the next identifier, is what `expected` says.
pub open spec fn realizes<T: Clone>(
    r: ParserResult<SyntaxNode<T>>,
    expected: Parsed,
    tokens: Seq<T>,
    entry: nat,
    position: nat,
    next_id: nat,
) -> bool {
    match expected {
        Parsed::Okay { tree, position: p, next_id: n } => {
            &&& r is Okay
            &&& r->Okay_0@ == tree
            &&& r->Okay_0.agrees(tokens)
            &&& position == p
            &&& next_id == n
        },
        Parsed::Fail { next_id: n } => r is Fail && position == entry && next_id == n,
        Parsed::Error => r is Error,
    }
}

impl<T: TokenSet + Clone> Tokens<T> {
    /// Parses the production `production` of `grammar` at the read
    /// position, stamping the sequences of the tree with identifiers from
    /// `ids`.
    ///
    /// Where the production matches, the cursor stands behind what it
    /// matched. Where it does not, the cursor stands where it stood. The
    /// parse cannot go on when the identifiers run out.
    pub fn parse(&mut self, grammar: &Grammar, production: usize, ids: &mut IdentitySource) -> (r:
        ParserResult<SyntaxNode<T>>)
        requires
            old(self).wf(),
            grammar.wf(),
            production < grammar.rules().len(),
        ensures
            final(self).wf(),
            final(self).tokens() == old(self).tokens(),
            final(self).kinds() == old(self).kinds(),
            realizes(
                r,
                parse_spec(
                    grammar.rules(),
                    production as nat,
                    old(self).kinds(),
                    old(self).position(),
                    old(ids).next(),
                ),
                old(self).tokens(),
                old(self).position(),
                final(self).position(),
                final(ids).next(),
            ),
            r is Fail ==> final(self).position() == old(self).position(),
            r is Okay ==> old(self).position() <= final(self).position(),
            r is Okay && !nullable(grammar.rules(), production as nat) ==> old(self).position()
                < final(self).position(),
            !(r is Error) ==> old(ids).next() <= final(ids).next(),
        decreases production, 1nat,
    {
        proof {
            grammar.lemma_wf();
            self.lemma_wf();
            assert(rule_ok(grammar.rules(), production as nat));
            lemma_parse_advances(
                grammar.rules(),
                production as nat,
                self.kinds(),
                self.position(),
                ids.next(),
            );
        }
        let start = self.get_i();
        match grammar.shape(production) {
            Shape::Leaf(kind) => {
                if start < self.len() && self.kind() == *kind {
                    let token = self.get_token().clone();
                    self.next();
                    ParserResult::Okay(SyntaxNode::Leaf { index: start, token })
                } else {
                    ParserResult::Fail
                }
            },
            Shape::Sequence(fields) => self.parse_sequence(grammar, production, fields, ids),
            Shape::Choice(alternatives) => self.parse_choice(
                grammar,
                production,
                alternatives,
                ids,
            ),
            Shape::Repeat0(item) => {
                match self.parse_repeat(grammar, production, *item, ids) {
                    Some(items) => ParserResult::Okay(SyntaxNode::Repeat0 { items }),
                    None => ParserResult::Error,
                }
            },
            Shape::Repeat1(item) => {
                match self.parse_repeat(grammar, production, *item, ids) {
                    Some(items) => {
                        if items.len() == 0 {
                            proof {
                                lemma_forest(items@);
                                lemma_many_advances(
                                    grammar.rules(),
                                    production as nat,
                                    *item as nat,
                                    old(self).kinds(),
                                    old(self).position(),
                                    old(ids).next(),
                                );
                            }
                            self.set_i(start);
                            ParserResult::Fail
                        } else {
                            proof {
                                lemma_forest(items@);
                            }
                            ParserResult::Okay(SyntaxNode::Repeat1 { items })
                        }
                    },
                    None => ParserResult::Error,
                }
            },
            Shape::Optional(item) => {
                match self.parse(grammar, *item, ids) {
                    ParserResult::Okay(child) => ParserResult::Okay(
                        SyntaxNode::Optional { item: Some(Box::new(child)) },
                    ),
                    ParserResult::Fail => ParserResult::Okay(SyntaxNode::Optional { item: None }),
                    ParserResult::Error => ParserResult::Error,
                }
            },
            Shape::Punctuated(item, separator) => {
                match self.parse_punctuated(grammar, production, *item, *separator, ids) {
                    Some((items, separators)) => ParserResult::Okay(
                        SyntaxNode::Punctuated { items, separators },
                    ),
                    None => ParserResult::Error,
                }
            },
        }
    }

    /// The fields of a sequence, one after the other. The first that does
    /// not match sends the cursor back to where the sequence began.
    fn parse_sequence(
        &mut self,
        grammar: &Grammar,
        production: usize,
        fields: &Vec<usize>,
        ids: &mut IdentitySource,
    ) -> (r: ParserResult<SyntaxNode<T>>)
        requires
            old(self).wf(),
            grammar.wf(),
            production < grammar.rules().len(),
            grammar.rules()[production as int] == (Rule::Sequence { fields: indices(fields@) }),
        ensures
            final(self).wf(),
            final(self).tokens() == old(self).tokens(),
            final(self).kinds() == old(self).kinds(),
            realizes(
                r,
                parse_spec(
                    grammar.rules(),
                    production as nat,
                    old(self).kinds(),
                    old(self).position(),
                    old(ids).next(),
                ),
                old(self).tokens(),
                old(self).position(),
                final(self).position(),
                final(ids).next(),
            ),
        decreases production, 0nat,
    {
        let ghost rules = grammar.rules();
        let ghost refs = indices(fields@);
        let ghost kinds = self.kinds();
        let ghost whole = parse_fields(
            rules,
            production as nat,
            refs,
            0,
            kinds,
            self.position(),
            ids.next(),
        );
        proof {
            grammar.lemma_wf();
            self.lemma_wf();
            assert(rule_ok(rules, production as nat));
        }
        let start = self.get_i();
        let mut nodes: Vec<SyntaxNode<T>> = Vec::new();
        let mut k: usize = 0;
        proof {
            lemma_forest(nodes@);
            assert(forest(nodes@) + Seq::<Tree>::empty() =~= Seq::<Tree>::empty());
            assert(whole == prepend(forest(nodes@), whole)) by {
                match whole {
                    ParsedList::Okay { trees, .. } => {
                        assert(forest(nodes@) + trees =~= trees);
                    },
                    _ => {},
                }
            }
        }
        while k < fields.len()
            invariant
                k <= fields.len(),
                self.wf(),
                grammar.wf(),
                rules == grammar.rules(),
                rules_ok(rules),
                production < rules.len(),
                rules[production as int] == (Rule::Sequence { fields: refs }),
                refs == indices(fields@),
                start == old(self).position(),
                self.tokens() == old(self).tokens(),
                self.kinds() == kinds,
                kinds == old(self).kinds(),
                kinds.len() == self.tokens().len(),
                self.position() <= kinds.len(),
                start <= kinds.len(),
                all_agree(nodes@, self.tokens()),
                whole == parse_fields(
                    rules,
                    production as nat,
                    refs,
                    0,
                    kinds,
                    old(self).position(),
                    old(ids).next(),
                ),
                whole == prepend(
                    forest(nodes@),
                    parse_fields(
                        rules,
                        production as nat,
                        refs,
                        k as nat,
                        kinds,
                        self.position(),
                        ids.next(),
                    ),
                ),
            decreases fields.len() - k,
        {
            let field = fields[k];
            let ghost before = nodes@;
            let ghost i = self.position();
            let ghost n = ids.next();
            proof {
                assert(refs[k as int] == field);
                assert(rule_ok(rules, production as nat));
                assert(rules[production as int]->fields == refs);
                assert(refs[k as int] < production);
                lemma_parse_advances(rules, field as nat, kinds, i, n);
            }
            match self.parse(grammar, field, ids) {
                ParserResult::Okay(node) => {
                    nodes.push(node);
                    proof {
                        let rest = parse_fields(
                            rules,
                            production as nat,
                            refs,
                            (k + 1) as nat,
                            kinds,
                            self.position(),
                            ids.next(),
                        );
                        lemma_forest_push(before, node);
                        assert(prepend(forest(before), prepend(seq![node@], rest)) == prepend(
                            forest(nodes@),
                            rest,
                        )) by {
                            match rest {
                                ParsedList::Okay { trees, .. } => {
                                    assert(forest(before) + (seq![node@] + trees) =~= forest(
                                        nodes@,
                                    ) + trees);
                                },
                                _ => {},
                            }
                        }
                        assert forall|j: int| 0 <= j < nodes@.len() implies (
                        #[trigger] nodes@[j]).agrees(self.tokens()) by {
                            if j < before.len() {
                                assert(nodes@[j] == before[j]);
                            }
                        }
                    }
                },
                ParserResult::Fail => {
                    self.set_i(start);
                    return ParserResult::Fail;
                },
                ParserResult::Error => {
                    return ParserResult::Error;
                },
            }
            k += 1;
        }
        proof {
            assert(forest(nodes@) + Seq::<Tree>::empty() =~= forest(nodes@));
        }
        match gen_next_syntax_tree_id(ids) {
            Some(id) => ParserResult::Okay(SyntaxNode::Sequence { id, production, fields: nodes }),
            None => ParserResult::Error,
        }
    }

    /// The alternatives of a choice, each tried where the choice began.
    fn parse_choice(
        &mut self,
        grammar: &Grammar,
        production: usize,
        alternatives: &Vec<usize>,
        ids: &mut IdentitySource,
    ) -> (r: ParserResult<SyntaxNode<T>>)
        requires
            old(self).wf(),
            grammar.wf(),
            production < grammar.rules().len(),
            grammar.rules()[production as int] == (Rule::Choice {
                alternatives: indices(alternatives@),
            }),
        ensures
            final(self).wf(),
            final(self).tokens() == old(self).tokens(),
            final(self).kinds() == old(self).kinds(),
            realizes(
                r,
                parse_spec(
                    grammar.rules(),
                    production as nat,
                    old(self).kinds(),
                    old(self).position(),
                    old(ids).next(),
                ),
                old(self).tokens(),
                old(self).position(),
                final(self).position(),
                final(ids).next(),
            ),
        decreases production, 0nat,
    {
        let ghost rules = grammar.rules();
        let ghost refs = indices(alternatives@);
        let ghost kinds = self.kinds();
        proof {
            grammar.lemma_wf();
            self.lemma_wf();
            assert(rule_ok(rules, production as nat));
        }
        let start = self.get_i();
        let mut k: usize = 0;
        while k < alternatives.len()
            invariant
                k <= alternatives.len(),
                self.wf(),
                grammar.wf(),
                rules == grammar.rules(),
                rules_ok(rules),
                production < rules.len(),
                rules[production as int] == (Rule::Choice { alternatives: refs }),
                refs == indices(alternatives@),
                start == old(self).position(),
                self.position() == start,
                self.tokens() == old(self).tokens(),
                self.kinds() == kinds,
                kinds == old(self).kinds(),
                kinds.len() == self.tokens().len(),
                start <= kinds.len(),
                parse_spec(
                    rules,
                    production as nat,
                    kinds,
                    old(self).position(),
                    old(ids).next(),
                ) == parse_alternatives(
                    rules,
                    production as nat,
                    refs,
                    k as nat,
                    kinds,
                    start as nat,
                    ids.next(),
                ),
            decreases alternatives.len() - k,
        {
            let alternative = alternatives[k];
            proof {
                assert(refs[k as int] == alternative);
                assert(rule_ok(rules, production as nat));
                assert(rules[production as int]->alternatives == refs);
                assert(refs[k as int] < production);
            }
            match self.parse(grammar, alternative, ids) {
                ParserResult::Okay(node) => {
                    return ParserResult::Okay(
                        SyntaxNode::Choice { production, variant: k, child: Box::new(node) },
                    );
                },
                ParserResult::Fail => {
                    self.set_i(start);
                },
                ParserResult::Error => {
                    return ParserResult::Error;
                },
            }
            k += 1;
        }
        ParserResult::Fail
    }

    /// One production as often as it matches. `None` is for a parse that
    /// cannot go on.
    fn parse_repeat(
        &mut self,
        grammar: &Grammar,
        production: usize,
        item: usize,
        ids: &mut IdentitySource,
    ) -> (r: Option<Vec<SyntaxNode<T>>>)
        requires
            old(self).wf(),
            grammar.wf(),
            production < grammar.rules().len(),
            item < production,
            !nullable(grammar.rules(), item as nat),
        ensures
            final(self).wf(),
            final(self).tokens() == old(self).tokens(),
            final(self).kinds() == old(self).kinds(),
            match parse_many(
                grammar.rules(),
                production as nat,
                item as nat,
                old(self).kinds(),
                old(self).position(),
                old(ids).next(),
            ) {
                ParsedList::Okay { trees, position, next_id } => {
                    &&& r.is_some()
                    &&& forest(r.unwrap()@) == trees
                    &&& all_agree(r.unwrap()@, old(self).tokens())
                    &&& final(self).position() == position
                    &&& final(ids).next() == next_id
                },
                ParsedList::Fail { .. } => false,
                ParsedList::Error => r.is_none(),
            },
        decreases production, 0nat,
    {
        let ghost rules = grammar.rules();
        let ghost kinds = self.kinds();
        let ghost whole = parse_many(
            rules,
            production as nat,
            item as nat,
            kinds,
            self.position(),
            ids.next(),
        );
        proof {
            grammar.lemma_wf();
            self.lemma_wf();
            lemma_many_advances(
                rules,
                production as nat,
                item as nat,
                kinds,
                self.position(),
                ids.next(),
            );
        }
        let mut nodes: Vec<SyntaxNode<T>> = Vec::new();
        proof {
            lemma_forest(nodes@);
            assert(whole == prepend(forest(nodes@), whole)) by {
                match whole {
                    ParsedList::Okay { trees, .. } => {
                        assert(forest(nodes@) + trees =~= trees);
                    },
                    _ => {},
                }
            }
        }
        loop
            invariant
                self.wf(),
                grammar.wf(),
                rules == grammar.rules(),
                rules_ok(rules),
                production < rules.len(),
                item < production,
                !nullable(rules, item as nat),
                self.tokens() == old(self).tokens(),
                self.kinds() == kinds,
                kinds == old(self).kinds(),
                kinds.len() == self.tokens().len(),
                self.position() <= kinds.len(),
                all_agree(nodes@, self.tokens()),
                whole == parse_many(
                    rules,
                    production as nat,
                    item as nat,
                    kinds,
                    old(self).position(),
                    old(ids).next(),
                ),
                !(whole is Fail),
                whole == prepend(
                    forest(nodes@),
                    parse_many(
                        rules,
                        production as nat,
                        item as nat,
                        kinds,
                        self.position(),
                        ids.next(),
                    ),
                ),
            decreases kinds.len() - self.position(),
        {
            let ghost before = nodes@;
            let ghost i = self.position();
            let ghost n = ids.next();
            proof {
                lemma_parse_advances(rules, item as nat, kinds, i, n);
            }
            match self.parse(grammar, item, ids) {
                ParserResult::Okay(node) => {
                    nodes.push(node);
                    proof {
                        let rest = parse_many(
                            rules,
                            production as nat,
                            item as nat,
                            kinds,
                            self.position(),
                            ids.next(),
                        );
                        lemma_forest_push(before, node);
                        assert(prepend(forest(before), prepend(seq![node@], rest)) == prepend(
                            forest(nodes@),
                            rest,
                        )) by {
                            match rest {
                                ParsedList::Okay { trees, .. } => {
                                    assert(forest(before) + (seq![node@] + trees) =~= forest(
                                        nodes@,
                                    ) + trees);
                                },
                                _ => {},
                            }
                        }
                        assert forall|j: int| 0 <= j < nodes@.len() implies (
                        #[trigger] nodes@[j]).agrees(self.tokens()) by {
                            if j < before.len() {
                                assert(nodes@[j] == before[j]);
                            }
                        }
                    }
                },
                ParserResult::Fail => {
                    proof {
                        assert(forest(nodes@) + Seq::<Tree>::empty() =~= forest(nodes@));
                    }
                    return Some(nodes);
                },
                ParserResult::Error => {
                    return None;
                },
            }
        }
    }

    /// Items and separators in turn. `None` is for a parse that cannot go
    /// on.
    fn parse_punctuated(
        &mut self,
        grammar: &Grammar,
        production: usize,
        item: usize,
        separator: usize,
        ids: &mut IdentitySource,
    ) -> (r: Option<(Vec<SyntaxNode<T>>, Vec<SyntaxNode<T>>)>)
        requires
            old(self).wf(),
            grammar.wf(),
            production < grammar.rules().len(),
            item < production,
            separator < production,
            !(nullable(grammar.rules(), item as nat) && nullable(
                grammar.rules(),
                separator as nat,
            )),
        ensures
            final(self).wf(),
            final(self).tokens() == old(self).tokens(),
            final(self).kinds() == old(self).kinds(),
            match parse_punctuated(
                grammar.rules(),
                production as nat,
                item as nat,
                separator as nat,
                old(self).kinds(),
                old(self).position(),
                old(ids).next(),
            ) {
                ParsedPairs::Okay { items, separators, position, next_id } => {
                    &&& r.is_some()
                    &&& forest(r.unwrap().0@) == items
                    &&& forest(r.unwrap().1@) == separators
                    &&& all_agree(r.unwrap().0@, old(self).tokens())
                    &&& all_agree(r.unwrap().1@, old(self).tokens())
                    &&& final(self).position() == position
                    &&& final(ids).next() == next_id
                },
                ParsedPairs::Error => r.is_none(),
            },
        decreases production, 0nat,
    {
        let ghost rules = grammar.rules();
        let ghost kinds = self.kinds();
        let ghost whole = parse_punctuated(
            rules,
            production as nat,
            item as nat,
            separator as nat,
            kinds,
            self.position(),
            ids.next(),
        );
        proof {
            grammar.lemma_wf();
            self.lemma_wf();
        }
        let mut items: Vec<SyntaxNode<T>> = Vec::new();
        let mut separators: Vec<SyntaxNode<T>> = Vec::new();
        proof {
            lemma_forest(items@);
            lemma_forest(separators@);
            assert(whole == prepend_pairs(forest(items@), forest(separators@), whole)) by {
                match whole {
                    ParsedPairs::Okay { items: i, separators: s, .. } => {
                        assert(forest(items@) + i =~= i);
                        assert(forest(separators@) + s =~= s);
                    },
                    _ => {},
                }
            }
        }
        loop
            invariant
                self.wf(),
                grammar.wf(),
                rules == grammar.rules(),
                rules_ok(rules),
                production < rules.len(),
                item < production,
                separator < production,
                !(nullable(rules, item as nat) && nullable(rules, separator as nat)),
                self.tokens() == old(self).tokens(),
                self.kinds() == kinds,
                kinds == old(self).kinds(),
                kinds.len() == self.tokens().len(),
                self.position() <= kinds.len(),
                all_agree(items@, self.tokens()),
                all_agree(separators@, self.tokens()),
                whole == parse_punctuated(
                    rules,
                    production as nat,
                    item as nat,
                    separator as nat,
                    kinds,
                    old(self).position(),
                    old(ids).next(),
                ),
                whole == prepend_pairs(
                    forest(items@),
                    forest(separators@),
                    parse_punctuated(
                        rules,
                        production as nat,
                        item as nat,
                        separator as nat,
                        kinds,
                        self.position(),
                        ids.next(),
                    ),
                ),
            decreases kinds.len() - self.position(),
        {
            let ghost items_before = items@;
            let ghost separators_before = separators@;
            let ghost i = self.position();
            let ghost n = ids.next();
            proof {
                lemma_parse_advances(rules, item as nat, kinds, i, n);
            }
            match self.parse(grammar, item, ids) {
                ParserResult::Okay(node) => {
                    items.push(node);
                    proof {
                        lemma_forest_push(items_before, node);
                        assert forall|j: int| 0 <= j < items@.len() implies (
                        #[trigger] items@[j]).agrees(self.tokens()) by {
                            if j < items_before.len() {
                                assert(items@[j] == items_before[j]);
                            }
                        }
                    }
                },
                ParserResult::Fail => {
                    proof {
                        assert(forest(items@) + Seq::<Tree>::empty() =~= forest(items@));
                        assert(forest(separators@) + Seq::<Tree>::empty() =~= forest(separators@));
                    }
                    return Some((items, separators));
                },
                ParserResult::Error => {
                    return None;
                },
            }
            let ghost first = items@.last()@;
            let ghost middle = self.position();
            let ghost n1 = ids.next();
            proof {
                lemma_parse_advances(rules, separator as nat, kinds, middle, n1);
            }
            match self.parse(grammar, separator, ids) {
                ParserResult::Okay(node) => {
                    separators.push(node);
                    proof {
                        let rest = parse_punctuated(
                            rules,
                            production as nat,
                            item as nat,
                            separator as nat,
                            kinds,
                            self.position(),
                            ids.next(),
                        );
                        lemma_forest_push(separators_before, node);
                        assert(prepend_pairs(
                            forest(items_before),
                            forest(separators_before),
                            prepend_pairs(seq![first], seq![node@], rest),
                        ) == prepend_pairs(forest(items@), forest(separators@), rest)) by {
                            match rest {
                                ParsedPairs::Okay { items: i, separators: s, .. } => {
                                    assert(forest(items_before) + (seq![first] + i) =~= forest(
                                        items@,
                                    ) + i);
                                    assert(forest(separators_before) + (seq![node@] + s)
                                        =~= forest(separators@) + s);
                                },
                                _ => {},
                            }
                        }
                        assert forall|j: int| 0 <= j < separators@.len() implies (
                        #[trigger] separators@[j]).agrees(self.tokens()) by {
                            if j < separators_before.len() {
                                assert(separators@[j] == separators_before[j]);
                            }
                        }
                    }
                },
                ParserResult::Fail => {
                    proof {
                        assert(forest(items_before) + seq![first] =~= forest(items@));
                        assert(forest(separators@) + Seq::<Tree>::empty() =~= forest(separators@));
                    }
                    return Some((items, separators));
                },
                ParserResult::Error => {
                    return None;
                },
            }
        }
    }
}

} // verus!
