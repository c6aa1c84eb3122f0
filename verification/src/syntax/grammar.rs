//! Grammars: tables of productions, each of one of seven shapes.
//!
//! A production may only refer to productions that stand before it in the
//! table, so a grammar has no cycles. A repetition must make progress: its
//! item may not match the empty input.

use vstd::prelude::*;

verus! {

/// The shape of a production, as a mathematical value. Productions are
/// named by their index in the table.
pub enum Rule {
    /// One token of the variant `kind`.
    Leaf { kind: nat },
    /// The productions `fields`, one after the other.
    Sequence { fields: Seq<nat> },
    /// The first of `alternatives` that matches.
    Choice { alternatives: Seq<nat> },
    /// `item`, as often as it matches.
    Repeat0 { item: nat },
    /// `item`, as often as it matches, and at least once.
    Repeat1 { item: nat },
    /// `item` or nothing.
    Optional { item: nat },
    /// `item`s with a `separator` between each two, and possibly one at the
    /// end.
    Punctuated { item: nat, separator: nat },
}

/// Whether the production `p` can match without taking a token.
pub open spec fn nullable(rules: Seq<Rule>, p: nat) -> bool
    decreases p,
{
    if p >= rules.len() {
        false
    } else {
        match rules[p as int] {
            Rule::Leaf { .. } => false,
            Rule::Sequence { fields } => forall|k: int|
                0 <= k < fields.len() ==> fields[k] < p && nullable(rules, #[trigger] fields[k]),
            Rule::Choice { alternatives } => exists|k: int|
                0 <= k < alternatives.len() && alternatives[k] < p && nullable(
                    rules,
                    #[trigger] alternatives[k],
                ),
            Rule::Repeat0 { .. } => true,
            Rule::Repeat1 { item } => item < p && nullable(rules, item),
            Rule::Optional { .. } => true,
            Rule::Punctuated { .. } => true,
        }
    }
}

/// The production `p` refers only to productions before it, and if it
/// repeats, each round takes at least one token.
pub open spec fn rule_ok(rules: Seq<Rule>, p: nat) -> bool
    recommends
        p < rules.len(),
{
    match rules[p as int] {
        Rule::Leaf { .. } => true,
        Rule::Sequence { fields } => forall|k: int| 0 <= k < fields.len() ==> #[trigger] fields[k] < p,
        Rule::Choice { alternatives } => forall|k: int|
            0 <= k < alternatives.len() ==> #[trigger] alternatives[k] < p,
        Rule::Repeat0 { item } => item < p && !nullable(rules, item),
        Rule::Repeat1 { item } => item < p && !nullable(rules, item),
        Rule::Optional { item } => item < p,
        Rule::Punctuated { item, separator } => item < p && separator < p && !(nullable(rules, item)
            && nullable(rules, separator)),
    }
}

/// Every production of the table is in order.
pub open spec fn rules_ok(rules: Seq<Rule>) -> bool {
    forall|p: nat| p < rules.len() ==> #[trigger] rule_ok(rules, p)
}

/// The indices in `v` as natural numbers.
pub open spec fn indices(v: Seq<usize>) -> Seq<nat> {
    Seq::new(v.len(), |k: int| v[k] as nat)
}

/// The shape of a production.
#[derive(Debug)]
pub enum Shape {
    Leaf(usize),
    Sequence(Vec<usize>),
    Choice(Vec<usize>),
    Repeat0(usize),
    Repeat1(usize),
    Optional(usize),
    Punctuated(usize, usize),
}

impl View for Shape {
    type V = Rule;

    open spec fn view(&self) -> Rule {
        match *self {
            Shape::Leaf(kind) => Rule::Leaf { kind: kind as nat },
            Shape::Sequence(fields) => Rule::Sequence { fields: indices(fields@) },
            Shape::Choice(alternatives) => Rule::Choice { alternatives: indices(alternatives@) },
            Shape::Repeat0(item) => Rule::Repeat0 { item: item as nat },
            Shape::Repeat1(item) => Rule::Repeat1 { item: item as nat },
            Shape::Optional(item) => Rule::Optional { item: item as nat },
            Shape::Punctuated(item, separator) => Rule::Punctuated {
                item: item as nat,
                separator: separator as nat,
            },
        }
    }
}

/// Whether a production is nullable depends only on the productions up to
/// it.
pub proof fn lemma_nullable_prefix(a: Seq<Rule>, b: Seq<Rule>, p: nat)
    requires
        p < a.len() <= b.len(),
        forall|q: int| 0 <= q <= p ==> a[q] == b[q],
    ensures
        nullable(a, p) == nullable(b, p),
    decreases p,
{
    match a[p as int] {
        Rule::Sequence { fields } => {
            assert forall|k: int| 0 <= k < fields.len() && fields[k] < p implies nullable(
                a,
                #[trigger] fields[k],
            ) == nullable(b, fields[k]) by {
                lemma_nullable_prefix(a, b, fields[k]);
            }
        },
        Rule::Choice { alternatives } => {
            assert forall|k: int|
                0 <= k < alternatives.len() && alternatives[k] < p implies nullable(
                a,
                #[trigger] alternatives[k],
            ) == nullable(b, alternatives[k]) by {
                lemma_nullable_prefix(a, b, alternatives[k]);
            }
        },
        Rule::Repeat1 { item } => {
            if item < p {
                lemma_nullable_prefix(a, b, item);
            }
        },
        _ => {},
    }
}

/// A table that is in order stays in order when a production that is in
/// order is put at its end.
pub proof fn lemma_push_rule(rules: Seq<Rule>, rule: Rule)
    requires
        rules_ok(rules),
        rule_ok(rules.push(rule), rules.len()),
    ensures
        rules_ok(rules.push(rule)),
        forall|q: nat| q < rules.len() ==> nullable(rules.push(rule), q) == nullable(rules, q),
{
    let after = rules.push(rule);
    assert forall|q: nat| q < rules.len() implies nullable(after, q) == nullable(rules, q) by {
        lemma_nullable_prefix(rules, after, q);
    }
    assert forall|q: nat| q < after.len() implies #[trigger] rule_ok(after, q) by {
        if q < rules.len() {
            assert(rule_ok(rules, q));
            assert(after[q as int] == rules[q as int]);
            match rules[q as int] {
                Rule::Repeat0 { item } => {
                    lemma_nullable_prefix(rules, after, item);
                },
                Rule::Repeat1 { item } => {
                    lemma_nullable_prefix(rules, after, item);
                },
                Rule::Punctuated { item, separator } => {
                    lemma_nullable_prefix(rules, after, item);
                    lemma_nullable_prefix(rules, after, separator);
                },
                _ => {},
            }
        }
    }
}

/// Every index in `refs` is below `n`.
pub open spec fn all_below(refs: Seq<nat>, n: nat) -> bool {
    forall|k: int| 0 <= k < refs.len() ==> #[trigger] refs[k] < n
}

/// A sequence of productions of the table can stand at its end, and matches
/// the empty input where all its fields do.
pub proof fn lemma_sequence_rule(rules: Seq<Rule>, fields: Seq<nat>)
    requires
        all_below(fields, rules.len()),
    ensures
        rule_ok(rules.push(Rule::Sequence { fields }), rules.len()),
        nullable(rules.push(Rule::Sequence { fields }), rules.len()) <==> forall|k: int|
            0 <= k < fields.len() ==> nullable(rules, #[trigger] fields[k]),
{
    let after = rules.push(Rule::Sequence { fields });
    assert forall|k: int| 0 <= k < fields.len() implies nullable(after, #[trigger] fields[k])
        == nullable(rules, fields[k]) by {
        lemma_nullable_prefix(rules, after, fields[k]);
    }
    let below = forall|k: int|
        0 <= k < fields.len() ==> fields[k] < rules.len() && nullable(after, #[trigger] fields[k]);
    let all = forall|k: int| 0 <= k < fields.len() ==> nullable(rules, #[trigger] fields[k]);
    let p = rules.len();
    assert(after[p as int]->fields == fields);
    if below {
        assert(nullable(after, p));
    }
    if nullable(after, p) {
        assert(below);
    }
    assert(below == all);
}

/// A choice between productions of the table can stand at its end, and
/// matches the empty input where one of its alternatives does.
pub proof fn lemma_choice_rule(rules: Seq<Rule>, alternatives: Seq<nat>)
    requires
        all_below(alternatives, rules.len()),
    ensures
        rule_ok(rules.push(Rule::Choice { alternatives }), rules.len()),
        nullable(rules.push(Rule::Choice { alternatives }), rules.len()) <==> exists|k: int|
            0 <= k < alternatives.len() && nullable(rules, #[trigger] alternatives[k]),
{
    let after = rules.push(Rule::Choice { alternatives });
    assert forall|k: int| 0 <= k < alternatives.len() implies nullable(
        after,
        #[trigger] alternatives[k],
    ) == nullable(rules, alternatives[k]) by {
        lemma_nullable_prefix(rules, after, alternatives[k]);
    }
    let below = exists|k: int|
        0 <= k < alternatives.len() && alternatives[k] < rules.len() && nullable(
            after,
            #[trigger] alternatives[k],
        );
    let any = exists|k: int|
        0 <= k < alternatives.len() && nullable(rules, #[trigger] alternatives[k]);
    let p = rules.len();
    assert(after[p as int]->alternatives == alternatives);
    if below {
        assert(nullable(after, p));
    }
    if nullable(after, p) {
        assert(below);
    }
    assert(below == any);
}

/// The first part of a table that is in order is in order.
pub proof fn lemma_take_rules(rules: Seq<Rule>, len: nat)
    requires
        rules_ok(rules),
        len <= rules.len(),
    ensures
        rules_ok(rules.take(len as int)),
        forall|q: nat| q < len ==> nullable(rules.take(len as int), q) == nullable(rules, q),
{
    let front = rules.take(len as int);
    assert forall|q: nat| q < len implies nullable(front, q) == nullable(rules, q) by {
        lemma_nullable_prefix(front, rules, q);
    }
    assert forall|q: nat| q < front.len() implies #[trigger] rule_ok(front, q) by {
        assert(rule_ok(rules, q));
        assert(front[q as int] == rules[q as int]);
        match rules[q as int] {
            Rule::Repeat0 { item } => {
                lemma_nullable_prefix(front, rules, item);
            },
            Rule::Repeat1 { item } => {
                lemma_nullable_prefix(front, rules, item);
            },
            Rule::Punctuated { item, separator } => {
                lemma_nullable_prefix(front, rules, item);
                lemma_nullable_prefix(front, rules, separator);
            },
            _ => {},
        }
    }
}

/// The first index from `k` on at which `names` holds `name`.
pub open spec fn find_from(names: Seq<Option<Seq<char>>>, name: Seq<char>, k: nat) -> Option<nat>
    decreases names.len() - k,
{
    if k >= names.len() {
        None
    } else if names[k as int] == Some(name) {
        Some(k)
    } else {
        find_from(names, name, k + 1)
    }
}

/// The first index at which `names` holds `name`.
pub open spec fn find(names: Seq<Option<Seq<char>>>, name: Seq<char>) -> Option<nat> {
    find_from(names, name, 0)
}

/// What `find` finds is in the table.
pub proof fn lemma_find_from(names: Seq<Option<Seq<char>>>, name: Seq<char>, k: nat)
    ensures
        match find_from(names, name, k) {
            Some(p) => k <= p < names.len() && names[p as int] == Some(name),
            None => forall|q: int| k <= q < names.len() ==> names[q] != Some(name),
        },
    decreases names.len() - k,
{
    if k < names.len() && names[k as int] != Some(name) {
        lemma_find_from(names, name, k + 1);
    }
}

/// Why a production or a declaration was not taken into a grammar.
#[derive(Debug, Clone, Copy, PartialEq, Eq)]
pub enum BindError {
    /// A production refers to one that the grammar does not hold.
    UnknownProduction,
    /// A repetition would never end: its item can match the empty input.
    NoProgress,
    /// There are not as many labels as fields or alternatives.
    LabelCount,
    /// The declaration is not of a kind that can be bound here.
    UnsupportedShape,
    /// The declaration does not nominate exactly one alphabet, or not in
    /// the form of a parenthesised name.
    Attribute,
    /// The declaration nominates another alphabet than the grammar's.
    ForeignAlphabet,
    /// A record has no field named `id`.
    MissingId,
    /// A token record has no field named `span`.
    MissingSpan,
    /// The grammar already holds a production of this name, or an alphabet
    /// wraps one type of record in two variants.
    DuplicateName,
    /// A field or a variant is of a type that the grammar does not know.
    UnknownType,
}

/// The three columns of a grammar: the shapes of the productions, their
/// names, and the names of their fields or variants.
pub struct Table {
    pub rules: Seq<Rule>,
    pub names: Seq<Option<Seq<char>>>,
    pub labels: Seq<Seq<Seq<char>>>,
}

impl Table {
    /// The table without rows.
    pub open spec fn empty() -> Table {
        Table { rules: Seq::empty(), names: Seq::empty(), labels: Seq::empty() }
    }

    /// The table with one row more at its end.
    pub open spec fn with(self, name: Option<Seq<char>>, labels: Seq<Seq<char>>, rule: Rule) -> Table {
        Table {
            rules: self.rules.push(rule),
            names: self.names.push(name),
            labels: self.labels.push(labels),
        }
    }

    /// The first `len` rows of the table.
    pub open spec fn take(self, len: nat) -> Table {
        Table {
            rules: self.rules.take(len as int),
            names: self.names.take(len as int),
            labels: self.labels.take(len as int),
        }
    }

    /// The three columns are of one length.
    pub open spec fn columns_agree(self) -> bool {
        self.names.len() == self.rules.len() && self.labels.len() == self.rules.len()
    }
}

/// The views of the strings in `v`.
pub open spec fn texts(v: Seq<String>) -> Seq<Seq<char>> {
    Seq::new(v.len(), |k: int| v[k]@)
}

/// One row of a grammar.
#[derive(Debug)]
pub struct Production {
    name: Option<String>,
    labels: Vec<String>,
    shape: Shape,
    nullable: bool,
}

/// A table of productions over one alphabet.
#[derive(Debug)]
pub struct Grammar {
    alphabet: String,
    productions: Vec<Production>,
}

impl Grammar {
    /// The shapes of the productions.
    pub closed spec fn rules(&self) -> Seq<Rule> {
        Seq::new(self.productions@.len(), |p: int| self.productions@[p].shape@)
    }

    /// The names of the productions. The productions that stand for a type
    /// written in place, such as a repetition, have none.
    pub closed spec fn names(&self) -> Seq<Option<Seq<char>>> {
        Seq::new(
            self.productions@.len(),
            |p: int|
                match self.productions@[p].name {
                    Some(name) => Some(name@),
                    None => None,
                },
        )
    }

    /// The names of the fields of each sequence and of the variants of each
    /// choice.
    pub closed spec fn labels(&self) -> Seq<Seq<Seq<char>>> {
        Seq::new(self.productions@.len(), |p: int| texts(self.productions@[p].labels@))
    }

    /// The name of the alphabet.
    pub closed spec fn alphabet(&self) -> Seq<char> {
        self.alphabet@
    }

    /// The table is in order, and the grammar knows of each production
    /// whether it can match the empty input.
    pub closed spec fn wf(&self) -> bool {
        &&& rules_ok(self.rules())
        &&& forall|p: int|
            0 <= p < self.productions@.len() ==> (#[trigger] self.productions@[p]).nullable
                == nullable(self.rules(), p as nat)
    }

    /// A well-formed grammar is in order, and its three columns are of one
    /// length.
    pub proof fn lemma_wf(&self)
        requires
            self.wf(),
        ensures
            rules_ok(self.rules()),
            self.table().columns_agree(),
    {
    }

    /// A grammar without productions over the alphabet of the name
    /// `alphabet`.
    pub fn new(alphabet: String) -> (r: Grammar)
        ensures
            r.wf(),
            r.alphabet() == alphabet@,
            r.rules() == Seq::<Rule>::empty(),
            r.names() == Seq::<Option<Seq<char>>>::empty(),
            r.labels() == Seq::<Seq<Seq<char>>>::empty(),
    {
        let r = Grammar { alphabet, productions: Vec::new() };
        assert(r.rules() =~= Seq::<Rule>::empty());
        assert(r.names() =~= Seq::<Option<Seq<char>>>::empty());
        assert(r.labels() =~= Seq::<Seq<Seq<char>>>::empty());
        r
    }

    /// The number of productions.
    pub fn len(&self) -> (r: usize)
        ensures
            r == self.rules().len(),
    {
        self.productions.len()
    }

    /// The name of the alphabet.
    pub fn alphabet_name(&self) -> (r: &String)
        ensures
            r@ == self.alphabet(),
    {
        &self.alphabet
    }

    /// The shape of the production `p`.
    pub fn shape(&self, p: usize) -> (r: &Shape)
        requires
            p < self.rules().len(),
        ensures
            r@ == self.rules()[p as int],
    {
        &self.productions[p].shape
    }

    /// Whether the production `p` can match the empty input.
    pub fn is_nullable(&self, p: usize) -> (r: bool)
        requires
            self.wf(),
            p < self.rules().len(),
        ensures
            r == nullable(self.rules(), p as nat),
    {
        self.productions[p].nullable
    }

    /// The first production of the name `name`, if there is one.
    pub fn lookup(&self, name: &String) -> (r: Option<usize>)
        ensures
            match r {
                Some(p) => {
                    &&& p < self.names().len()
                    &&& find(self.names(), name@) == Some(p as nat)
                    &&& self.names()[p as int] == Some(name@)
                    &&& forall|q: int| 0 <= q < p ==> self.names()[q] != Some(name@)
                },
                None => {
                    &&& find(self.names(), name@) is None
                    &&& forall|q: int|
                        0 <= q < self.names().len() ==> self.names()[q] != Some(name@)
                },
            },
    {
        let mut p: usize = 0;
        while p < self.productions.len()
            invariant
                p <= self.productions.len(),
                forall|q: int| 0 <= q < p ==> self.names()[q] != Some(name@),
                find(self.names(), name@) == find_from(self.names(), name@, p as nat),
            decreases self.productions.len() - p,
        {
            let found = match &self.productions[p].name {
                Some(n) => *n == *name,
                None => false,
            };
            if found {
                return Some(p);
            }
            p += 1;
        }
        None
    }

    /// The place of the field or variant of the name `label` in the
    /// production `p`, if it has one of that name.
    pub fn label_index(&self, p: usize, label: &String) -> (r: Option<usize>)
        requires
            p < self.rules().len(),
        ensures
            match r {
                Some(k) => {
                    &&& k < self.labels()[p as int].len()
                    &&& self.labels()[p as int][k as int] == label@
                    &&& forall|j: int| 0 <= j < k ==> self.labels()[p as int][j] != label@
                },
                None => forall|j: int|
                    0 <= j < self.labels()[p as int].len() ==> self.labels()[p as int][j]
                        != label@,
            },
    {
        let labels = &self.productions[p].labels;
        let mut k: usize = 0;
        while k < labels.len()
            invariant
                k <= labels.len(),
                p < self.productions@.len(),
                *labels == self.productions@[p as int].labels,
                forall|j: int| 0 <= j < k ==> self.labels()[p as int][j] != label@,
            decreases labels.len() - k,
        {
            if labels[k] == *label {
                return Some(k);
            }
            k += 1;
        }
        None
    }

    /// The three columns of the grammar.
    pub open spec fn table(&self) -> Table {
        Table { rules: self.rules(), names: self.names(), labels: self.labels() }
    }

    /// This grammar is `before` with one production more at the end.
    pub open spec fn extends(
        &self,
        before: &Grammar,
        name: Option<Seq<char>>,
        labels: Seq<Seq<char>>,
        rule: Rule,
    ) -> bool {
        &&& self.alphabet() == before.alphabet()
        &&& self.table() == before.table().with(name, labels, rule)
    }

    /// Adds a production that matches one token of the variant `kind` and
    /// returns its index.
    pub fn leaf(&mut self, name: String, kind: usize) -> (r: usize)
        requires
            old(self).wf(),
        ensures
            final(self).wf(),
            r == old(self).rules().len(),
            final(self).extends(
                old(self),
                Some(name@),
                Seq::empty(),
                Rule::Leaf { kind: kind as nat },
            ),
    {
        let labels: Vec<String> = Vec::new();
        assert(texts(labels@) =~= Seq::<Seq<char>>::empty());
        self.push(Some(name), labels, Shape::Leaf(kind), false)
    }

    /// Adds a production that matches `fields` one after the other and
    /// returns its index. `labels` are the names of the fields.
    pub fn sequence(&mut self, name: String, labels: Vec<String>, fields: Vec<usize>) -> (r: Result<
        usize,
        BindError,
    >)
        requires
            old(self).wf(),
        ensures
            final(self).wf(),
            match r {
                Ok(p) => {
                    &&& labels.len() == fields.len()
                    &&& all_below(indices(fields@), old(self).rules().len())
                    &&& p == old(self).rules().len()
                    &&& final(self).extends(
                        old(self),
                        Some(name@),
                        texts(labels@),
                        Rule::Sequence { fields: indices(fields@) },
                    )
                },
                Err(e) => {
                    &&& *final(self) == *old(self)
                    &&& if labels.len() != fields.len() {
                        e == BindError::LabelCount
                    } else {
                        e == BindError::UnknownProduction && !all_below(
                            indices(fields@),
                            old(self).rules().len(),
                        )
                    }
                },
            },
    {
        if labels.len() != fields.len() {
            return Err(BindError::LabelCount);
        }
        let ghost refs = indices(fields@);
        let mut empty = true;
        let mut k: usize = 0;
        while k < fields.len()
            invariant
                k <= fields.len(),
                labels.len() == fields.len(),
                refs == indices(fields@),
                self.wf(),
                *self == *old(self),
                forall|j: int| 0 <= j < k ==> #[trigger] refs[j] < self.rules().len(),
                empty <==> forall|j: int| 0 <= j < k ==> nullable(self.rules(), #[trigger] refs[j]),
            decreases fields.len() - k,
        {
            if fields[k] >= self.productions.len() {
                assert(refs[k as int] == fields@[k as int]);
                return Err(BindError::UnknownProduction);
            }
            empty = empty && self.productions[fields[k]].nullable;
            assert(refs[k as int] == fields@[k as int]);
            k += 1;
        }
        proof {
            lemma_sequence_rule(self.rules(), refs);
        }
        Ok(self.push(Some(name), labels, Shape::Sequence(fields), empty))
    }

    /// Adds a production that matches the first of `alternatives` that
    /// matches and returns its index. `labels` are the names of the
    /// variants.
    pub fn choice(&mut self, name: String, labels: Vec<String>, alternatives: Vec<usize>) -> (r:
        Result<usize, BindError>)
        requires
            old(self).wf(),
        ensures
            final(self).wf(),
            match r {
                Ok(p) => {
                    &&& labels.len() == alternatives.len()
                    &&& all_below(indices(alternatives@), old(self).rules().len())
                    &&& p == old(self).rules().len()
                    &&& final(self).extends(
                        old(self),
                        Some(name@),
                        texts(labels@),
                        Rule::Choice { alternatives: indices(alternatives@) },
                    )
                },
                Err(e) => {
                    &&& *final(self) == *old(self)
                    &&& if labels.len() != alternatives.len() {
                        e == BindError::LabelCount
                    } else {
                        e == BindError::UnknownProduction && !all_below(
                            indices(alternatives@),
                            old(self).rules().len(),
                        )
                    }
                },
            },
    {
        if labels.len() != alternatives.len() {
            return Err(BindError::LabelCount);
        }
        let ghost refs = indices(alternatives@);
        let mut empty = false;
        let mut k: usize = 0;
        while k < alternatives.len()
            invariant
                k <= alternatives.len(),
                labels.len() == alternatives.len(),
                refs == indices(alternatives@),
                self.wf(),
                *self == *old(self),
                forall|j: int| 0 <= j < k ==> #[trigger] refs[j] < self.rules().len(),
                empty <==> exists|j: int| 0 <= j < k && nullable(self.rules(), #[trigger] refs[j]),
            decreases alternatives.len() - k,
        {
            if alternatives[k] >= self.productions.len() {
                assert(refs[k as int] == alternatives@[k as int]);
                return Err(BindError::UnknownProduction);
            }
            empty = empty || self.productions[alternatives[k]].nullable;
            assert(refs[k as int] == alternatives@[k as int]);
            k += 1;
        }
        proof {
            lemma_choice_rule(self.rules(), refs);
        }
        Ok(self.push(Some(name), labels, Shape::Choice(alternatives), empty))
    }

    /// Adds a production that matches `item` as often as it matches and
    /// returns its index.
    pub fn repeat0(&mut self, item: usize) -> (r: Result<usize, BindError>)
        requires
            old(self).wf(),
        ensures
            final(self).wf(),
            match r {
                Ok(p) => {
                    &&& item < old(self).rules().len()
                    &&& !nullable(old(self).rules(), item as nat)
                    &&& p == old(self).rules().len()
                    &&& final(self).extends(
                        old(self),
                        None,
                        Seq::empty(),
                        Rule::Repeat0 { item: item as nat },
                    )
                },
                Err(e) => {
                    &&& *final(self) == *old(self)
                    &&& if item >= old(self).rules().len() {
                        e == BindError::UnknownProduction
                    } else {
                        e == BindError::NoProgress && nullable(old(self).rules(), item as nat)
                    }
                },
            },
    {
        if item >= self.productions.len() {
            return Err(BindError::UnknownProduction);
        }
        if self.productions[item].nullable {
            return Err(BindError::NoProgress);
        }
        let labels: Vec<String> = Vec::new();
        proof {
            assert(texts(labels@) =~= Seq::<Seq<char>>::empty());
            lemma_nullable_prefix(
                self.rules(),
                self.rules().push(Rule::Repeat0 { item: item as nat }),
                item as nat,
            );
        }
        Ok(self.push(None, labels, Shape::Repeat0(item), true))
    }

    /// Adds a production that matches `item` as often as it matches, and at
    /// least once, and returns its index.
    pub fn repeat1(&mut self, item: usize) -> (r: Result<usize, BindError>)
        requires
            old(self).wf(),
        ensures
            final(self).wf(),
            match r {
                Ok(p) => {
                    &&& item < old(self).rules().len()
                    &&& !nullable(old(self).rules(), item as nat)
                    &&& p == old(self).rules().len()
                    &&& final(self).extends(
                        old(self),
                        None,
                        Seq::empty(),
                        Rule::Repeat1 { item: item as nat },
                    )
                },
                Err(e) => {
                    &&& *final(self) == *old(self)
                    &&& if item >= old(self).rules().len() {
                        e == BindError::UnknownProduction
                    } else {
                        e == BindError::NoProgress && nullable(old(self).rules(), item as nat)
                    }
                },
            },
    {
        if item >= self.productions.len() {
            return Err(BindError::UnknownProduction);
        }
        if self.productions[item].nullable {
            return Err(BindError::NoProgress);
        }
        let labels: Vec<String> = Vec::new();
        proof {
            assert(texts(labels@) =~= Seq::<Seq<char>>::empty());
            lemma_nullable_prefix(
                self.rules(),
                self.rules().push(Rule::Repeat1 { item: item as nat }),
                item as nat,
            );
        }
        Ok(self.push(None, labels, Shape::Repeat1(item), false))
    }

    /// Adds a production that matches `item` or nothing and returns its
    /// index.
    pub fn optional(&mut self, item: usize) -> (r: Result<usize, BindError>)
        requires
            old(self).wf(),
        ensures
            final(self).wf(),
            match r {
                Ok(p) => {
                    &&& item < old(self).rules().len()
                    &&& p == old(self).rules().len()
                    &&& final(self).extends(
                        old(self),
                        None,
                        Seq::empty(),
                        Rule::Optional { item: item as nat },
                    )
                },
                Err(e) => {
                    &&& *final(self) == *old(self)
                    &&& e == BindError::UnknownProduction
                    &&& item >= old(self).rules().len()
                },
            },
    {
        if item >= self.productions.len() {
            return Err(BindError::UnknownProduction);
        }
        let labels: Vec<String> = Vec::new();
        assert(texts(labels@) =~= Seq::<Seq<char>>::empty());
        Ok(self.push(None, labels, Shape::Optional(item), true))
    }

    /// Adds a production that matches `item`s with a `separator` between
    /// each two, and possibly one at the end, and returns its index.
    pub fn punctuated(&mut self, item: usize, separator: usize) -> (r: Result<usize, BindError>)
        requires
            old(self).wf(),
        ensures
            final(self).wf(),
            match r {
                Ok(p) => {
                    &&& item < old(self).rules().len()
                    &&& separator < old(self).rules().len()
                    &&& !(nullable(old(self).rules(), item as nat) && nullable(
                        old(self).rules(),
                        separator as nat,
                    ))
                    &&& p == old(self).rules().len()
                    &&& final(self).extends(
                        old(self),
                        None,
                        Seq::empty(),
                        Rule::Punctuated { item: item as nat, separator: separator as nat },
                    )
                },
                Err(e) => {
                    &&& *final(self) == *old(self)
                    &&& if item >= old(self).rules().len() || separator >= old(
                        self,
                    ).rules().len() {
                        e == BindError::UnknownProduction
                    } else {
                        e == BindError::NoProgress && nullable(old(self).rules(), item as nat)
                            && nullable(old(self).rules(), separator as nat)
                    }
                },
            },
    {
        if item >= self.productions.len() || separator >= self.productions.len() {
            return Err(BindError::UnknownProduction);
        }
        if self.productions[item].nullable && self.productions[separator].nullable {
            return Err(BindError::NoProgress);
        }
        let labels: Vec<String> = Vec::new();
        proof {
            let after = self.rules().push(
                Rule::Punctuated { item: item as nat, separator: separator as nat },
            );
            assert(texts(labels@) =~= Seq::<Seq<char>>::empty());
            lemma_nullable_prefix(self.rules(), after, item as nat);
            lemma_nullable_prefix(self.rules(), after, separator as nat);
        }
        Ok(self.push(None, labels, Shape::Punctuated(item, separator), true))
    }

    /// Takes the productions from the `len`-th on out of the table again.
    pub(crate) fn truncate(&mut self, len: usize)
        requires
            old(self).wf(),
            len <= old(self).rules().len(),
        ensures
            final(self).wf(),
            final(self).alphabet() == old(self).alphabet(),
            final(self).table() == old(self).table().take(len as nat),
    {
        proof {
            lemma_take_rules(self.rules(), len as nat);
        }
        self.productions.truncate(len);
        proof {
            assert(self.rules() =~= old(self).rules().take(len as int));
            assert(self.names() =~= old(self).names().take(len as int));
            assert(self.labels() =~= old(self).labels().take(len as int));
            assert forall|p: int| 0 <= p < self.productions@.len() implies (
            #[trigger] self.productions@[p]).nullable == nullable(self.rules(), p as nat) by {
                assert(self.productions@[p] == old(self).productions@[p]);
            }
        }
    }

    /// Puts a production at the end of the table.
    fn push(&mut self, name: Option<String>, labels: Vec<String>, shape: Shape, empty: bool) -> (r:
        usize)
        requires
            old(self).wf(),
            rule_ok(old(self).rules().push(shape@), old(self).rules().len()),
            empty == nullable(old(self).rules().push(shape@), old(self).rules().len()),
        ensures
            final(self).wf(),
            r == old(self).rules().len(),
            final(self).alphabet() == old(self).alphabet(),
            final(self).rules() == old(self).rules().push(shape@),
            final(self).names() == old(self).names().push(
                match name {
                    Some(n) => Some(n@),
                    None => None,
                },
            ),
            final(self).labels() == old(self).labels().push(texts(labels@)),
    {
        let r = self.productions.len();
        proof {
            lemma_push_rule(self.rules(), shape@);
        }
        self.productions.push(Production { name, labels, shape, nullable: empty });
        proof {
            assert(self.rules() =~= old(self).rules().push(shape@));
            assert(self.names() =~= old(self).names().push(
                match name {
                    Some(n) => Some(n@),
                    None => None,
                },
            ));
            assert(self.labels() =~= old(self).labels().push(texts(labels@)));
            assert forall|p: int| 0 <= p < self.productions@.len() implies (
            #[trigger] self.productions@[p]).nullable == nullable(self.rules(), p as nat) by {
                if p < r {
                    assert(self.productions@[p] == old(self).productions@[p]);
                }
            }
        }
        r
    }
}

} // verus!
