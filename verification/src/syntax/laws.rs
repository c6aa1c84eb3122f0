//! What holds of every parse: laws of the parser kernel, proved from the
//! definition of parsing.

use crate::syntax::grammar::{nullable, rule_ok, rules_ok, Rule};
use crate::syntax::parse::{
    lemma_alternatives_advance, lemma_fields_advance, lemma_many_advances, lemma_parse_advances,
    lemma_punctuated_advances, parse_alternatives, parse_fields, parse_many, parse_punctuated,
    parse_spec, Parsed, ParsedList, ParsedPairs,
};
use crate::syntax::tree::{forest_ids, forest_leaves, pairs_ids, pairs_leaves, Tree};
use vstd::prelude::*;

verus! {

/// The numbers of `s` grow from each to the next and lie from `lo` up to,
/// but not including, `hi`.
pub open spec fn ascending_within(s: Seq<nat>, lo: nat, hi: nat) -> bool {
    &&& forall|k: int| 0 <= k < s.len() ==> lo <= #[trigger] s[k] < hi
    &&& forall|a: int, b: int| 0 <= a < b < s.len() ==> s[a] < s[b]
}

/// The numbers from `lo` up to, but not including, `hi`.
pub open spec fn range(lo: nat, hi: nat) -> Seq<nat> {
    Seq::new(
        if hi >= lo {
            (hi - lo) as nat
        } else {
            0
        },
        |k: int| (lo + k) as nat,
    )
}

/// Numbers that grow from each to the next are pairwise distinct.
pub proof fn lemma_ascending_distinct(s: Seq<nat>, lo: nat, hi: nat)
    requires
        ascending_within(s, lo, hi),
    ensures
        s.no_duplicates(),
{
    assert forall|a: int, b: int| 0 <= a < s.len() && 0 <= b < s.len() && a != b implies s[a]
        != s[b] by {
        if a < b {
            assert(s[a] < s[b]);
        } else {
            assert(s[b] < s[a]);
        }
    }
}

proof fn lemma_ascending_concat(a: Seq<nat>, b: Seq<nat>, lo: nat, mid: nat, hi: nat)
    requires
        ascending_within(a, lo, mid),
        ascending_within(b, mid, hi),
        lo <= mid <= hi,
    ensures
        ascending_within(a + b, lo, hi),
{
    let s = a + b;
    assert forall|k: int| 0 <= k < s.len() implies lo <= #[trigger] s[k] < hi by {
        if k < a.len() {
            assert(s[k] == a[k]);
        } else {
            assert(s[k] == b[k - a.len()]);
        }
    }
    assert forall|x: int, y: int| 0 <= x < y < s.len() implies s[x] < s[y] by {
        if y < a.len() {
            assert(s[x] == a[x] && s[y] == a[y]);
        } else if x < a.len() {
            assert(s[x] == a[x] && s[y] == b[y - a.len()]);
        } else {
            assert(s[x] == b[x - a.len()] && s[y] == b[y - a.len()]);
        }
    }
}

proof fn lemma_range_concat(lo: nat, mid: nat, hi: nat)
    requires
        lo <= mid <= hi,
    ensures
        range(lo, mid) + range(mid, hi) == range(lo, hi),
{
    assert(range(lo, mid) + range(mid, hi) =~= range(lo, hi));
}

proof fn lemma_forest_cons(tree: Tree, trees: Seq<Tree>)
    ensures
        forest_ids(seq![tree] + trees) == tree.ids() + forest_ids(trees),
        forest_leaves(seq![tree] + trees) == tree.leaves() + forest_leaves(trees),
{
    let all = seq![tree] + trees;
    assert(all.first() == tree);
    assert(all.drop_first() =~= trees);
}

proof fn lemma_pairs_shift(
    first: Tree,
    second: Tree,
    items: Seq<Tree>,
    separators: Seq<Tree>,
    k: nat,
)
    ensures
        pairs_ids(
            Tree::Punctuated { items: seq![first] + items, separators: seq![second] + separators },
            k + 1,
        ) == pairs_ids(Tree::Punctuated { items, separators }, k),
        pairs_leaves(
            Tree::Punctuated { items: seq![first] + items, separators: seq![second] + separators },
            k + 1,
        ) == pairs_leaves(Tree::Punctuated { items, separators }, k),
    decreases items.len() + separators.len() - k,
{
    let longer = Tree::Punctuated {
        items: seq![first] + items,
        separators: seq![second] + separators,
    };
    let shorter = Tree::Punctuated { items, separators };
    if !(k >= items.len() && k >= separators.len()) {
        lemma_pairs_shift(first, second, items, separators, k + 1);
        if k < items.len() {
            assert((seq![first] + items)[k as int + 1] == items[k as int]);
        }
        if k < separators.len() {
            assert((seq![second] + separators)[k as int + 1] == separators[k as int]);
        }
    }
}

/// A tree that a parse hands back is stamped with identifiers that the
/// parse took from the source itself, each other than all the others: they
/// grow in the order of stamping and lie between the next identifier
/// before the parse and the next one after it. And its leaves are the
/// tokens from the position where the parse began up to where it ended,
/// each of them once and in their order.
pub proof fn lemma_parse_tree(rules: Seq<Rule>, p: nat, kinds: Seq<nat>, i: nat, n: nat)
    requires
        rules_ok(rules),
        p < rules.len(),
        i <= kinds.len(),
    ensures
        match parse_spec(rules, p, kinds, i, n) {
            Parsed::Okay { tree, position, next_id } => {
                &&& ascending_within(tree.ids(), n, next_id)
                &&& tree.ids().no_duplicates()
                &&& tree.leaves() == range(i, position)
            },
            _ => true,
        },
    decreases p, 1nat, 0nat,
{
    assert(rule_ok(rules, p));
    lemma_parse_advances(rules, p, kinds, i, n);
    match rules[p as int] {
        Rule::Leaf { .. } => {
            assert(seq![i] =~= range(i, i + 1));
        },
        Rule::Sequence { fields } => {
            lemma_fields_trees(rules, p, fields, 0, kinds, i, n);
            lemma_fields_advance(rules, p, fields, 0, kinds, i, n);
            match parse_fields(rules, p, fields, 0, kinds, i, n) {
                ParsedList::Okay { trees, next_id, .. } => {
                    if next_id < usize::MAX {
                        assert(ascending_within(seq![next_id], next_id, next_id + 1));
                        lemma_ascending_concat(
                            forest_ids(trees),
                            seq![next_id],
                            n,
                            next_id,
                            next_id + 1,
                        );
                        assert(forest_ids(trees).push(next_id) =~= forest_ids(trees)
                            + seq![next_id]);
                    }
                },
                _ => {},
            }
        },
        Rule::Choice { alternatives } => {
            lemma_alternatives_tree(rules, p, alternatives, 0, kinds, i, n);
        },
        Rule::Repeat0 { item } => {
            lemma_many_trees(rules, p, item, kinds, i, n);
        },
        Rule::Repeat1 { item } => {
            lemma_many_trees(rules, p, item, kinds, i, n);
        },
        Rule::Optional { item } => {
            lemma_parse_tree(rules, item, kinds, i, n);
            lemma_parse_advances(rules, item, kinds, i, n);
            match parse_spec(rules, item, kinds, i, n) {
                Parsed::Fail { .. } => {
                    assert(Seq::<nat>::empty() =~= range(i, i));
                },
                _ => {},
            }
        },
        Rule::Punctuated { item, separator } => {
            lemma_punctuated_trees(rules, p, item, separator, kinds, i, n);
        },
    }
    match parse_spec(rules, p, kinds, i, n) {
        Parsed::Okay { tree, next_id, .. } => {
            lemma_ascending_distinct(tree.ids(), n, next_id);
        },
        _ => {},
    }
}

proof fn lemma_fields_trees(
    rules: Seq<Rule>,
    p: nat,
    fields: Seq<nat>,
    k: nat,
    kinds: Seq<nat>,
    i: nat,
    n: nat,
)
    requires
        rules_ok(rules),
        p < rules.len(),
        rules[p as int] == (Rule::Sequence { fields }),
        k <= fields.len(),
        i <= kinds.len(),
    ensures
        match parse_fields(rules, p, fields, k, kinds, i, n) {
            ParsedList::Okay { trees, position, next_id } => {
                &&& ascending_within(forest_ids(trees), n, next_id)
                &&& forest_leaves(trees) == range(i, position)
            },
            _ => true,
        },
    decreases p, 0nat, fields.len() - k,
{
    assert(rule_ok(rules, p));
    if k < fields.len() {
        assert(rules[p as int]->fields == fields);
        assert(fields[k as int] < p);
        let field = fields[k as int];
        lemma_parse_tree(rules, field, kinds, i, n);
        lemma_parse_advances(rules, field, kinds, i, n);
        match parse_spec(rules, field, kinds, i, n) {
            Parsed::Okay { tree, position, next_id } => {
                lemma_fields_trees(rules, p, fields, k + 1, kinds, position, next_id);
                lemma_fields_advance(rules, p, fields, k + 1, kinds, position, next_id);
                match parse_fields(rules, p, fields, k + 1, kinds, position, next_id) {
                    ParsedList::Okay { trees, position: end, next_id: last } => {
                        lemma_forest_cons(tree, trees);
                        lemma_ascending_concat(tree.ids(), forest_ids(trees), n, next_id, last);
                        lemma_range_concat(i, position, end);
                    },
                    _ => {},
                }
            },
            _ => {},
        }
    } else {
        assert(Seq::<nat>::empty() =~= range(i, i));
    }
}

proof fn lemma_alternatives_tree(
    rules: Seq<Rule>,
    p: nat,
    alternatives: Seq<nat>,
    k: nat,
    kinds: Seq<nat>,
    i: nat,
    n: nat,
)
    requires
        rules_ok(rules),
        p < rules.len(),
        rules[p as int] == (Rule::Choice { alternatives }),
        k <= alternatives.len(),
        i <= kinds.len(),
    ensures
        match parse_alternatives(rules, p, alternatives, k, kinds, i, n) {
            Parsed::Okay { tree, position, next_id } => {
                &&& ascending_within(tree.ids(), n, next_id)
                &&& tree.leaves() == range(i, position)
            },
            _ => true,
        },
    decreases p, 0nat, alternatives.len() - k,
{
    assert(rule_ok(rules, p));
    if k < alternatives.len() {
        assert(rules[p as int]->alternatives == alternatives);
        assert(alternatives[k as int] < p);
        let alternative = alternatives[k as int];
        lemma_parse_tree(rules, alternative, kinds, i, n);
        lemma_parse_advances(rules, alternative, kinds, i, n);
        match parse_spec(rules, alternative, kinds, i, n) {
            Parsed::Fail { next_id } => {
                lemma_alternatives_tree(rules, p, alternatives, k + 1, kinds, i, next_id);
            },
            _ => {},
        }
    }
}

proof fn lemma_many_trees(rules: Seq<Rule>, p: nat, item: nat, kinds: Seq<nat>, i: nat, n: nat)
    requires
        rules_ok(rules),
        p < rules.len(),
        item < p,
        !nullable(rules, item),
        i <= kinds.len(),
    ensures
        match parse_many(rules, p, item, kinds, i, n) {
            ParsedList::Okay { trees, position, next_id } => {
                &&& ascending_within(forest_ids(trees), n, next_id)
                &&& forest_leaves(trees) == range(i, position)
            },
            _ => true,
        },
    decreases p, 0nat, kinds.len() - i,
{
    lemma_parse_tree(rules, item, kinds, i, n);
    lemma_parse_advances(rules, item, kinds, i, n);
    match parse_spec(rules, item, kinds, i, n) {
        Parsed::Okay { tree, position, next_id } => {
            lemma_many_trees(rules, p, item, kinds, position, next_id);
            lemma_many_advances(rules, p, item, kinds, position, next_id);
            match parse_many(rules, p, item, kinds, position, next_id) {
                ParsedList::Okay { trees, position: end, next_id: last } => {
                    lemma_forest_cons(tree, trees);
                    lemma_ascending_concat(tree.ids(), forest_ids(trees), n, next_id, last);
                    lemma_range_concat(i, position, end);
                },
                _ => {},
            }
        },
        Parsed::Fail { .. } => {
            assert(Seq::<nat>::empty() =~= range(i, i));
        },
        _ => {},
    }
}

proof fn lemma_punctuated_trees(
    rules: Seq<Rule>,
    p: nat,
    item: nat,
    separator: nat,
    kinds: Seq<nat>,
    i: nat,
    n: nat,
)
    requires
        rules_ok(rules),
        p < rules.len(),
        item < p,
        separator < p,
        !(nullable(rules, item) && nullable(rules, separator)),
        i <= kinds.len(),
    ensures
        match parse_punctuated(rules, p, item, separator, kinds, i, n) {
            ParsedPairs::Okay { items, separators, position, next_id } => {
                &&& ascending_within(
                    pairs_ids(Tree::Punctuated { items, separators }, 0),
                    n,
                    next_id,
                )
                &&& pairs_leaves(Tree::Punctuated { items, separators }, 0) == range(i, position)
            },
            _ => true,
        },
    decreases p, 0nat, kinds.len() - i,
{
    let empty = Seq::<nat>::empty();
    lemma_parse_tree(rules, item, kinds, i, n);
    lemma_parse_advances(rules, item, kinds, i, n);
    match parse_spec(rules, item, kinds, i, n) {
        Parsed::Okay { tree: first, position: middle, next_id: n1 } => {
            lemma_parse_tree(rules, separator, kinds, middle, n1);
            lemma_parse_advances(rules, separator, kinds, middle, n1);
            match parse_spec(rules, separator, kinds, middle, n1) {
                Parsed::Okay { tree: second, position, next_id } => {
                    lemma_punctuated_trees(rules, p, item, separator, kinds, position, next_id);
                    lemma_punctuated_advances(rules, p, item, separator, kinds, position, next_id);
                    match parse_punctuated(rules, p, item, separator, kinds, position, next_id) {
                        ParsedPairs::Okay { items, separators, position: end, next_id: last } => {
                            let list = Tree::Punctuated {
                                items: seq![first] + items,
                                separators: seq![second] + separators,
                            };
                            let rest = Tree::Punctuated { items, separators };
                            lemma_pairs_shift(first, second, items, separators, 0);
                            assert((seq![first] + items)[0] == first);
                            assert((seq![second] + separators)[0] == second);
                            lemma_ascending_concat(first.ids(), second.ids(), n, n1, next_id);
                            lemma_ascending_concat(
                                first.ids() + second.ids(),
                                pairs_ids(rest, 0),
                                n,
                                next_id,
                                last,
                            );
                            lemma_range_concat(i, middle, position);
                            lemma_range_concat(i, position, end);
                        },
                        _ => {},
                    }
                },
                Parsed::Fail { next_id } => {
                    let list = Tree::Punctuated { items: seq![first], separators: Seq::empty() };
                    assert(pairs_ids(list, 1) =~= empty);
                    assert(pairs_leaves(list, 1) =~= empty);
                    assert(pairs_ids(list, 0) =~= first.ids());
                    assert(pairs_leaves(list, 0) =~= first.leaves());
                },
                _ => {},
            }
        },
        Parsed::Fail { .. } => {
            let list = Tree::Punctuated { items: Seq::empty(), separators: Seq::empty() };
            assert(pairs_ids(list, 0) =~= empty);
            assert(pairs_leaves(list, 0) =~= range(i, i));
        },
        _ => {},
    }
}

/// The next identifier at the moment when a choice tries its `k`-th
/// alternative: what the alternatives before it have left, which all
/// failed. `None` where one of them did not fail.
pub open spec fn tried_with(
    rules: Seq<Rule>,
    alternatives: Seq<nat>,
    k: nat,
    kinds: Seq<nat>,
    i: nat,
    n: nat,
) -> Option<nat>
    decreases k,
{
    if k == 0 {
        Some(n)
    } else {
        match tried_with(rules, alternatives, (k - 1) as nat, kinds, i, n) {
            Some(m) => match parse_spec(rules, alternatives[k - 1], kinds, i, m) {
                Parsed::Fail { next_id } => Some(next_id),
                _ => None,
            },
            None => None,
        }
    }
}

proof fn lemma_alternatives_from(
    rules: Seq<Rule>,
    p: nat,
    alternatives: Seq<nat>,
    k: nat,
    kinds: Seq<nat>,
    i: nat,
    n: nat,
)
    requires
        rules_ok(rules),
        p < rules.len(),
        rules[p as int] == (Rule::Choice { alternatives }),
        k <= alternatives.len(),
        tried_with(rules, alternatives, k, kinds, i, n) is Some,
    ensures
        parse_alternatives(rules, p, alternatives, 0, kinds, i, n) == parse_alternatives(
            rules,
            p,
            alternatives,
            k,
            kinds,
            i,
            tried_with(rules, alternatives, k, kinds, i, n)->0,
        ),
    decreases k,
{
    if k > 0 {
        assert(rule_ok(rules, p));
        assert(rules[p as int]->alternatives == alternatives);
        assert(alternatives[k - 1] < p);
        lemma_alternatives_from(rules, p, alternatives, (k - 1) as nat, kinds, i, n);
    }
}

/// A choice takes the first alternative that matches: where the
/// alternatives before the `k`-th all fail and the `k`-th matches, the
/// choice hands back the tree of the `k`-th, wrapped as its variant `k`,
/// and ends where the `k`-th ended.
pub proof fn lemma_choice_takes_first(
    rules: Seq<Rule>,
    p: nat,
    kinds: Seq<nat>,
    i: nat,
    n: nat,
    k: nat,
)
    requires
        rules_ok(rules),
        p < rules.len(),
        rules[p as int] is Choice,
        k < rules[p as int]->alternatives.len(),
        tried_with(rules, rules[p as int]->alternatives, k, kinds, i, n) is Some,
        parse_spec(
            rules,
            rules[p as int]->alternatives[k as int],
            kinds,
            i,
            tried_with(rules, rules[p as int]->alternatives, k, kinds, i, n)->0,
        ) is Okay,
    ensures
        ({
            let alternatives = rules[p as int]->alternatives;
            let m = tried_with(rules, alternatives, k, kinds, i, n)->0;
            let taken = parse_spec(rules, alternatives[k as int], kinds, i, m);
            parse_spec(rules, p, kinds, i, n) == (Parsed::Okay {
                tree: Tree::Choice { production: p, variant: k, child: Box::new(taken->tree) },
                position: taken->position,
                next_id: taken->Okay_next_id,
            })
        }),
{
    let alternatives = rules[p as int]->alternatives;
    assert(rule_ok(rules, p));
    assert(alternatives[k as int] < p);
    lemma_alternatives_from(rules, p, alternatives, k, kinds, i, n);
}

proof fn lemma_alternatives_taken(
    rules: Seq<Rule>,
    p: nat,
    alternatives: Seq<nat>,
    k: nat,
    kinds: Seq<nat>,
    i: nat,
    n: nat,
)
    requires
        rules_ok(rules),
        p < rules.len(),
        rules[p as int] == (Rule::Choice { alternatives }),
        k <= alternatives.len(),
        tried_with(rules, alternatives, k, kinds, i, n) is Some,
    ensures
        match parse_alternatives(
            rules,
            p,
            alternatives,
            k,
            kinds,
            i,
            tried_with(rules, alternatives, k, kinds, i, n)->0,
        ) {
            Parsed::Okay { tree, position, next_id } => {
                &&& tree is Choice
                &&& tree->Choice_production == p
                &&& k <= tree->variant < alternatives.len()
                &&& tried_with(rules, alternatives, tree->variant, kinds, i, n) is Some
                &&& parse_spec(
                    rules,
                    alternatives[tree->variant as int],
                    kinds,
                    i,
                    tried_with(rules, alternatives, tree->variant, kinds, i, n)->0,
                ) == (Parsed::Okay { tree: *tree->child, position, next_id })
            },
            Parsed::Fail { next_id } => tried_with(
                rules,
                alternatives,
                alternatives.len(),
                kinds,
                i,
                n,
            ) == Some(next_id),
            Parsed::Error => true,
        },
    decreases alternatives.len() - k,
{
    if k < alternatives.len() {
        assert(rule_ok(rules, p));
        assert(rules[p as int]->alternatives == alternatives);
        assert(alternatives[k as int] < p);
        let m = tried_with(rules, alternatives, k, kinds, i, n)->0;
        match parse_spec(rules, alternatives[k as int], kinds, i, m) {
            Parsed::Fail { next_id } => {
                assert(tried_with(rules, alternatives, k + 1, kinds, i, n) == Some(next_id));
                lemma_alternatives_taken(rules, p, alternatives, k + 1, kinds, i, n);
            },
            _ => {},
        }
    }
}

/// The alternative that a choice takes is the first that matches: all the
/// alternatives before it failed, and the tree that the choice wraps is
/// the one that the taken alternative handed back. And a choice that fails
/// has seen all its alternatives fail.
pub proof fn lemma_choice_skips_failures(
    rules: Seq<Rule>,
    p: nat,
    kinds: Seq<nat>,
    i: nat,
    n: nat,
)
    requires
        rules_ok(rules),
        p < rules.len(),
        rules[p as int] is Choice,
    ensures
        ({
            let alternatives = rules[p as int]->alternatives;
            match parse_spec(rules, p, kinds, i, n) {
                Parsed::Okay { tree, position, next_id } => {
                    &&& tree is Choice
                    &&& tree->Choice_production == p
                    &&& tree->variant < alternatives.len()
                    &&& tried_with(rules, alternatives, tree->variant, kinds, i, n) is Some
                    &&& parse_spec(
                        rules,
                        alternatives[tree->variant as int],
                        kinds,
                        i,
                        tried_with(rules, alternatives, tree->variant, kinds, i, n)->0,
                    ) == (Parsed::Okay { tree: *tree->child, position, next_id })
                },
                Parsed::Fail { next_id } => tried_with(
                    rules,
                    alternatives,
                    alternatives.len(),
                    kinds,
                    i,
                    n,
                ) == Some(next_id),
                Parsed::Error => true,
            }
        }),
{
    lemma_alternatives_taken(rules, p, rules[p as int]->alternatives, 0, kinds, i, n);
}

/// The next identifier at the moment when a repetition makes the attempt
/// that ends it.
pub open spec fn refused_with(
    rules: Seq<Rule>,
    item: nat,
    kinds: Seq<nat>,
    i: nat,
    n: nat,
) -> nat
    decreases kinds.len() - i,
{
    match parse_spec(rules, item, kinds, i, n) {
        Parsed::Okay { position, next_id, .. } => {
            if i < position <= kinds.len() {
                refused_with(rules, item, kinds, position, next_id)
            } else {
                n
            }
        },
        _ => n,
    }
}

proof fn lemma_many_stops(rules: Seq<Rule>, p: nat, item: nat, kinds: Seq<nat>, i: nat, n: nat)
    requires
        item < p,
    ensures
        match parse_many(rules, p, item, kinds, i, n) {
            ParsedList::Okay { position, next_id, .. } => parse_spec(
                rules,
                item,
                kinds,
                position,
                refused_with(rules, item, kinds, i, n),
            ) == (Parsed::Fail { next_id }),
            _ => true,
        },
    decreases kinds.len() - i,
{
    match parse_spec(rules, item, kinds, i, n) {
        Parsed::Okay { position, next_id, .. } => {
            if i < position <= kinds.len() {
                lemma_many_stops(rules, p, item, kinds, position, next_id);
            }
        },
        _ => {},
    }
}

/// A repetition of none or more never fails, and it ends where its item
/// first does not match: tried at the position where the repetition
/// ended, the item fails.
pub proof fn lemma_repeat0_ends_at_refusal(
    rules: Seq<Rule>,
    p: nat,
    kinds: Seq<nat>,
    i: nat,
    n: nat,
)
    requires
        rules_ok(rules),
        p < rules.len(),
        rules[p as int] is Repeat0,
        i <= kinds.len(),
    ensures
        !(parse_spec(rules, p, kinds, i, n) is Fail),
        match parse_spec(rules, p, kinds, i, n) {
            Parsed::Okay { tree, position, next_id } => {
                &&& tree is Repeat0
                &&& parse_spec(
                    rules,
                    rules[p as int]->Repeat0_item,
                    kinds,
                    position,
                    refused_with(rules, rules[p as int]->Repeat0_item, kinds, i, n),
                ) == (Parsed::Fail { next_id })
            },
            _ => true,
        },
{
    let item = rules[p as int]->Repeat0_item;
    assert(rule_ok(rules, p));
    lemma_many_advances(rules, p, item, kinds, i, n);
    lemma_many_stops(rules, p, item, kinds, i, n);
}

/// A repetition of one or more fails where its item does not match at
/// once, and only there; where it matches, it holds at least one item.
pub proof fn lemma_repeat1_needs_one(rules: Seq<Rule>, p: nat, kinds: Seq<nat>, i: nat, n: nat)
    requires
        rules_ok(rules),
        p < rules.len(),
        rules[p as int] is Repeat1,
        i <= kinds.len(),
    ensures
        parse_spec(rules, p, kinds, i, n) is Fail <==> parse_spec(
            rules,
            rules[p as int]->Repeat1_item,
            kinds,
            i,
            n,
        ) is Fail,
        match parse_spec(rules, p, kinds, i, n) {
            Parsed::Okay { tree, position, .. } => {
                &&& tree is Repeat1
                &&& tree->Repeat1_items.len() >= 1
                &&& i < position
            },
            _ => true,
        },
{
    let item = rules[p as int]->Repeat1_item;
    assert(rule_ok(rules, p));
    lemma_many_advances(rules, p, item, kinds, i, n);
    lemma_parse_advances(rules, item, kinds, i, n);
    match parse_spec(rules, item, kinds, i, n) {
        Parsed::Okay { position, next_id, .. } => {
            lemma_many_advances(rules, p, item, kinds, position, next_id);
        },
        _ => {},
    }
}

/// An option never fails: where its item does not match, it matches
/// nothing and ends where it began.
pub proof fn lemma_optional_never_fails(
    rules: Seq<Rule>,
    p: nat,
    kinds: Seq<nat>,
    i: nat,
    n: nat,
)
    requires
        rules_ok(rules),
        p < rules.len(),
        rules[p as int] is Optional,
    ensures
        !(parse_spec(rules, p, kinds, i, n) is Fail),
        parse_spec(rules, rules[p as int]->Optional_item, kinds, i, n) matches Parsed::Fail {
            next_id,
        } ==> parse_spec(rules, p, kinds, i, n) == (Parsed::Okay {
            tree: Tree::Optional { item: None },
            position: i,
            next_id,
        }),
{
    assert(rule_ok(rules, p));
}

/// A punctuated list never fails, and it holds as many items as
/// separators, or one item more.
pub proof fn lemma_punctuated_lengths(rules: Seq<Rule>, p: nat, kinds: Seq<nat>, i: nat, n: nat)
    requires
        rules_ok(rules),
        p < rules.len(),
        rules[p as int] is Punctuated,
        i <= kinds.len(),
    ensures
        !(parse_spec(rules, p, kinds, i, n) is Fail),
        match parse_spec(rules, p, kinds, i, n) {
            Parsed::Okay { tree, .. } => {
                &&& tree is Punctuated
                &&& tree->Punctuated_items.len() == tree->separators.len()
                    || tree->Punctuated_items.len() == tree->separators.len() + 1
            },
            _ => true,
        },
{
    assert(rule_ok(rules, p));
    lemma_punctuated_advances(
        rules,
        p,
        rules[p as int]->Punctuated_item,
        rules[p as int]->separator,
        kinds,
        i,
        n,
    );
}

/// What a production matches depends only on the productions up to it:
/// a grammar that grows parses with the productions it had as it did
/// before.
pub proof fn lemma_parse_prefix(
    a: Seq<Rule>,
    b: Seq<Rule>,
    p: nat,
    kinds: Seq<nat>,
    i: nat,
    n: nat,
)
    requires
        p < a.len() <= b.len(),
        forall|q: int| 0 <= q <= p ==> a[q] == b[q],
    ensures
        parse_spec(a, p, kinds, i, n) == parse_spec(b, p, kinds, i, n),
    decreases p, 1nat, 0nat,
{
    match a[p as int] {
        Rule::Leaf { .. } => {},
        Rule::Sequence { fields } => {
            lemma_fields_prefix(a, b, p, fields, 0, kinds, i, n);
        },
        Rule::Choice { alternatives } => {
            lemma_alternatives_prefix(a, b, p, alternatives, 0, kinds, i, n);
        },
        Rule::Repeat0 { item } => {
            lemma_many_prefix(a, b, p, item, kinds, i, n);
        },
        Rule::Repeat1 { item } => {
            lemma_many_prefix(a, b, p, item, kinds, i, n);
        },
        Rule::Optional { item } => {
            if item < p {
                lemma_parse_prefix(a, b, item, kinds, i, n);
            }
        },
        Rule::Punctuated { item, separator } => {
            lemma_punctuated_prefix(a, b, p, item, separator, kinds, i, n);
        },
    }
}

proof fn lemma_fields_prefix(
    a: Seq<Rule>,
    b: Seq<Rule>,
    p: nat,
    fields: Seq<nat>,
    k: nat,
    kinds: Seq<nat>,
    i: nat,
    n: nat,
)
    requires
        p < a.len() <= b.len(),
        forall|q: int| 0 <= q <= p ==> a[q] == b[q],
    ensures
        parse_fields(a, p, fields, k, kinds, i, n) == parse_fields(b, p, fields, k, kinds, i, n),
    decreases p, 0nat, fields.len() - k,
{
    if k < fields.len() && fields[k as int] < p {
        lemma_parse_prefix(a, b, fields[k as int], kinds, i, n);
        match parse_spec(a, fields[k as int], kinds, i, n) {
            Parsed::Okay { position, next_id, .. } => {
                lemma_fields_prefix(a, b, p, fields, k + 1, kinds, position, next_id);
            },
            _ => {},
        }
    }
}

proof fn lemma_alternatives_prefix(
    a: Seq<Rule>,
    b: Seq<Rule>,
    p: nat,
    alternatives: Seq<nat>,
    k: nat,
    kinds: Seq<nat>,
    i: nat,
    n: nat,
)
    requires
        p < a.len() <= b.len(),
        forall|q: int| 0 <= q <= p ==> a[q] == b[q],
    ensures
        parse_alternatives(a, p, alternatives, k, kinds, i, n) == parse_alternatives(
            b,
            p,
            alternatives,
            k,
            kinds,
            i,
            n,
        ),
    decreases p, 0nat, alternatives.len() - k,
{
    if k < alternatives.len() && alternatives[k as int] < p {
        lemma_parse_prefix(a, b, alternatives[k as int], kinds, i, n);
        match parse_spec(a, alternatives[k as int], kinds, i, n) {
            Parsed::Fail { next_id } => {
                lemma_alternatives_prefix(a, b, p, alternatives, k + 1, kinds, i, next_id);
            },
            _ => {},
        }
    }
}

proof fn lemma_many_prefix(
    a: Seq<Rule>,
    b: Seq<Rule>,
    p: nat,
    item: nat,
    kinds: Seq<nat>,
    i: nat,
    n: nat,
)
    requires
        p < a.len() <= b.len(),
        forall|q: int| 0 <= q <= p ==> a[q] == b[q],
    ensures
        parse_many(a, p, item, kinds, i, n) == parse_many(b, p, item, kinds, i, n),
    decreases p, 0nat, kinds.len() - i,
{
    if item < p {
        lemma_parse_prefix(a, b, item, kinds, i, n);
        match parse_spec(a, item, kinds, i, n) {
            Parsed::Okay { position, next_id, .. } => {
                if i < position <= kinds.len() {
                    lemma_many_prefix(a, b, p, item, kinds, position, next_id);
                }
            },
            _ => {},
        }
    }
}

proof fn lemma_punctuated_prefix(
    a: Seq<Rule>,
    b: Seq<Rule>,
    p: nat,
    item: nat,
    separator: nat,
    kinds: Seq<nat>,
    i: nat,
    n: nat,
)
    requires
        p < a.len() <= b.len(),
        forall|q: int| 0 <= q <= p ==> a[q] == b[q],
    ensures
        parse_punctuated(a, p, item, separator, kinds, i, n) == parse_punctuated(
            b,
            p,
            item,
            separator,
            kinds,
            i,
            n,
        ),
    decreases p, 0nat, kinds.len() - i,
{
    if item < p && separator < p {
        lemma_parse_prefix(a, b, item, kinds, i, n);
        match parse_spec(a, item, kinds, i, n) {
            Parsed::Okay { position: middle, next_id: n1, .. } => {
                lemma_parse_prefix(a, b, separator, kinds, middle, n1);
                match parse_spec(a, separator, kinds, middle, n1) {
                    Parsed::Okay { position, next_id, .. } => {
                        if i < position <= kinds.len() {
                            lemma_punctuated_prefix(
                                a,
                                b,
                                p,
                                item,
                                separator,
                                kinds,
                                position,
                                next_id,
                            );
                        }
                    },
                    _ => {},
                }
            },
            _ => {},
        }
    }
}

/// A production that can match the empty input never fails. So a
/// repetition of such a production could not end, which is why a grammar
/// takes none.
pub proof fn lemma_nullable_never_fails(
    rules: Seq<Rule>,
    p: nat,
    kinds: Seq<nat>,
    i: nat,
    n: nat,
)
    requires
        rules_ok(rules),
        p < rules.len(),
        nullable(rules, p),
        i <= kinds.len(),
    ensures
        !(parse_spec(rules, p, kinds, i, n) is Fail),
    decreases p, 1nat, 0nat,
{
    assert(rule_ok(rules, p));
    match rules[p as int] {
        Rule::Leaf { .. } => {},
        Rule::Sequence { fields } => {
            lemma_nullable_fields(rules, p, fields, 0, kinds, i, n);
        },
        Rule::Choice { alternatives } => {
            let k = choose|k: int|
                0 <= k < alternatives.len() && alternatives[k] < p && nullable(
                    rules,
                    #[trigger] alternatives[k],
                );
            lemma_nullable_alternatives(rules, p, alternatives, 0, k as nat, kinds, i, n);
        },
        Rule::Repeat0 { item } => {
            lemma_many_advances(rules, p, item, kinds, i, n);
        },
        Rule::Repeat1 { .. } => {},
        Rule::Optional { .. } => {},
        Rule::Punctuated { .. } => {},
    }
}

proof fn lemma_nullable_fields(
    rules: Seq<Rule>,
    p: nat,
    fields: Seq<nat>,
    k: nat,
    kinds: Seq<nat>,
    i: nat,
    n: nat,
)
    requires
        rules_ok(rules),
        p < rules.len(),
        rules[p as int] == (Rule::Sequence { fields }),
        nullable(rules, p),
        k <= fields.len(),
        i <= kinds.len(),
    ensures
        !(parse_fields(rules, p, fields, k, kinds, i, n) is Fail),
    decreases p, 0nat, fields.len() - k,
{
    if k < fields.len() {
        assert(rules[p as int]->fields == fields);
        let field = fields[k as int];
        assert(field < p && nullable(rules, field));
        lemma_nullable_never_fails(rules, field, kinds, i, n);
        lemma_parse_advances(rules, field, kinds, i, n);
        match parse_spec(rules, field, kinds, i, n) {
            Parsed::Okay { position, next_id, .. } => {
                lemma_nullable_fields(rules, p, fields, k + 1, kinds, position, next_id);
            },
            _ => {},
        }
    }
}

proof fn lemma_nullable_alternatives(
    rules: Seq<Rule>,
    p: nat,
    alternatives: Seq<nat>,
    k: nat,
    sure: nat,
    kinds: Seq<nat>,
    i: nat,
    n: nat,
)
    requires
        rules_ok(rules),
        p < rules.len(),
        rules[p as int] == (Rule::Choice { alternatives }),
        k <= sure < alternatives.len(),
        alternatives[sure as int] < p,
        nullable(rules, alternatives[sure as int]),
        i <= kinds.len(),
    ensures
        !(parse_alternatives(rules, p, alternatives, k, kinds, i, n) is Fail),
    decreases p, 0nat, alternatives.len() - k,
{
    assert(rule_ok(rules, p));
    assert(rules[p as int]->alternatives == alternatives);
    let alternative = alternatives[k as int];
    assert(alternative < p);
    if k == sure {
        lemma_nullable_never_fails(rules, alternative, kinds, i, n);
    } else {
        match parse_spec(rules, alternative, kinds, i, n) {
            Parsed::Fail { next_id } => {
                lemma_nullable_alternatives(
                    rules,
                    p,
                    alternatives,
                    k + 1,
                    sure,
                    kinds,
                    i,
                    next_id,
                );
            },
            _ => {},
        }
    }
}

} // verus!
