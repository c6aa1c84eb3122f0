//! The grammar-shape binder: it takes the declaration of a record or of a
//! tagged union and puts the production that the declaration describes
//! into a grammar.
//!
//! A record with named fields becomes a sequence of its fields, the field
//! `id` left out. A tagged union becomes a choice between the payloads of
//! its variants. The tagged union that declares an alphabet becomes one
//! leaf for each of its variants.

use crate::syntax::grammar::{
    find, indices, lemma_find_from, nullable, texts, BindError, Grammar, Rule, Table,
};
use vstd::prelude::*;
use vstd::string::StringExecFns;

verus! {

/// A type as a declaration writes it.
#[derive(Debug)]
pub enum TypeExpr {
    /// A token record or a production, by its name.
    Named(String),
    /// None or more of a type.
    Repeat0(Box<TypeExpr>),
    /// One or more of a type.
    Repeat1(Box<TypeExpr>),
    /// A type or nothing.
    Optional(Box<TypeExpr>),
    /// Items of the first type, separated by the second.
    Punctuated(Box<TypeExpr>, Box<TypeExpr>),
}

/// A named field of a record.
#[derive(Debug)]
pub struct Field {
    pub name: String,
    pub ty: TypeExpr,
}

/// The fields of a record or of a variant.
#[derive(Debug)]
pub enum Fields {
    Named(Vec<Field>),
    Unnamed(Vec<TypeExpr>),
    Unit,
}

/// A variant of a tagged union.
#[derive(Debug)]
pub struct Variant {
    pub name: String,
    pub fields: Fields,
}

/// What a declaration declares.
#[derive(Debug)]
pub enum Data {
    Struct(Fields),
    Enum(Vec<Variant>),
    Union,
}

/// An attribute of a declaration: a name in parentheses, which nominates
/// an alphabet, or anything else.
#[derive(Debug)]
pub enum Attribute {
    Paren(String),
    Other,
}

/// The declaration of a type.
#[derive(Debug)]
pub struct Declaration {
    pub name: String,
    pub attributes: Vec<Attribute>,
    pub data: Data,
}

/// A table and the production in it that stands for a type, or the reason
/// why there is none.
pub struct Resolved {
    pub table: Table,
    pub outcome: Result<nat, BindError>,
}

/// The production that stands for the type `ty`. A name stands for the
/// first production of that name. A type built from others gets a
/// production of its own at the end of the table, behind those of its
/// parts.
pub open spec fn resolve(table: Table, ty: TypeExpr) -> Resolved
    decreases ty,
{
    match ty {
        TypeExpr::Named(name) => Resolved {
            table,
            outcome: match find(table.names, name@) {
                Some(p) => Ok(p),
                None => Err(BindError::UnknownType),
            },
        },
        TypeExpr::Repeat0(inner) => {
            let r = resolve(table, *inner);
            match r.outcome {
                Ok(item) => {
                    if nullable(r.table.rules, item) {
                        Resolved { table: r.table, outcome: Err(BindError::NoProgress) }
                    } else {
                        Resolved {
                            table: r.table.with(None, Seq::empty(), Rule::Repeat0 { item }),
                            outcome: Ok(r.table.rules.len()),
                        }
                    }
                },
                Err(_) => r,
            }
        },
        TypeExpr::Repeat1(inner) => {
            let r = resolve(table, *inner);
            match r.outcome {
                Ok(item) => {
                    if nullable(r.table.rules, item) {
                        Resolved { table: r.table, outcome: Err(BindError::NoProgress) }
                    } else {
                        Resolved {
                            table: r.table.with(None, Seq::empty(), Rule::Repeat1 { item }),
                            outcome: Ok(r.table.rules.len()),
                        }
                    }
                },
                Err(_) => r,
            }
        },
        TypeExpr::Optional(inner) => {
            let r = resolve(table, *inner);
            match r.outcome {
                Ok(item) => Resolved {
                    table: r.table.with(None, Seq::empty(), Rule::Optional { item }),
                    outcome: Ok(r.table.rules.len()),
                },
                Err(_) => r,
            }
        },
        TypeExpr::Punctuated(first, second) => {
            let a = resolve(table, *first);
            match a.outcome {
                Ok(item) => {
                    let b = resolve(a.table, *second);
                    match b.outcome {
                        Ok(separator) => {
                            if nullable(b.table.rules, item) && nullable(b.table.rules, separator) {
                                Resolved { table: b.table, outcome: Err(BindError::NoProgress) }
                            } else {
                                Resolved {
                                    table: b.table.with(
                                        None,
                                        Seq::empty(),
                                        Rule::Punctuated { item, separator },
                                    ),
                                    outcome: Ok(b.table.rules.len()),
                                }
                            }
                        },
                        Err(_) => b,
                    }
                },
                Err(_) => a,
            }
        },
    }
}

/// Resolving a type only adds rows to the table, and the production that
/// it finds is in the table.
pub proof fn lemma_resolve(table: Table, ty: TypeExpr)
    requires
        table.columns_agree(),
    ensures
        resolve(table, ty).table.columns_agree(),
        table.rules.len() <= resolve(table, ty).table.rules.len(),
        resolve(table, ty).table.take(table.rules.len()) == table,
        resolve(table, ty).outcome matches Ok(p) ==> p < resolve(table, ty).table.rules.len(),
    decreases ty,
{
    let n = table.rules.len();
    let after = resolve(table, ty).table;
    match ty {
        TypeExpr::Named(name) => {
            lemma_find_from(table.names, name@, 0);
            lemma_take_all(table);
        },
        TypeExpr::Repeat0(inner) => {
            lemma_resolve(table, *inner);
            lemma_grown(table, resolve(table, *inner).table, after);
        },
        TypeExpr::Repeat1(inner) => {
            lemma_resolve(table, *inner);
            lemma_grown(table, resolve(table, *inner).table, after);
        },
        TypeExpr::Optional(inner) => {
            lemma_resolve(table, *inner);
            lemma_grown(table, resolve(table, *inner).table, after);
        },
        TypeExpr::Punctuated(first, second) => {
            lemma_resolve(table, *first);
            let a = resolve(table, *first);
            if a.outcome is Ok {
                lemma_resolve(a.table, *second);
                let b = resolve(a.table, *second);
                lemma_grown(table, a.table, b.table);
                lemma_grown(table, b.table, after);
            } else {
                lemma_grown(table, a.table, after);
            }
        },
    }
}

/// A table is all its rows.
proof fn lemma_take_all(table: Table)
    requires
        table.columns_agree(),
    ensures
        table.take(table.rules.len()) == table,
{
    let n = table.rules.len();
    assert(table.take(n).rules =~= table.rules);
    assert(table.take(n).names =~= table.names);
    assert(table.take(n).labels =~= table.labels);
}

/// Where `short` is the first part of `middle`, and `middle` is the first
/// part of `long` or all of it but the last row, `short` is the first part
/// of `long`.
proof fn lemma_grown(short: Table, middle: Table, long: Table)
    requires
        short.columns_agree(),
        middle.columns_agree(),
        short.rules.len() <= middle.rules.len(),
        middle.take(short.rules.len()) == short,
        long == middle || long.take(middle.rules.len()) == middle || exists|
            name: Option<Seq<char>>,
            labels: Seq<Seq<char>>,
            rule: Rule,
        | long == #[trigger] middle.with(name, labels, rule),
        long.columns_agree(),
        middle.rules.len() <= long.rules.len(),
    ensures
        long.take(short.rules.len()) == short,
{
    let n = short.rules.len();
    let m = middle.rules.len();
    assert(long.rules.take(m as int) =~= middle.rules);
    assert(long.names.take(m as int) =~= middle.names);
    assert(long.labels.take(m as int) =~= middle.labels);
    assert(long.take(n).rules =~= long.rules.take(m as int).take(n as int));
    assert(long.take(n).names =~= long.names.take(m as int).take(n as int));
    assert(long.take(n).labels =~= long.labels.take(m as int).take(n as int));
}

/// Puts the production that stands for `ty` into the grammar, where there
/// is one.
fn resolve_type(grammar: &mut Grammar, ty: &TypeExpr) -> (r: Result<usize, BindError>)
    requires
        old(grammar).wf(),
    ensures
        final(grammar).wf(),
        final(grammar).alphabet() == old(grammar).alphabet(),
        final(grammar).table() == resolve(old(grammar).table(), *ty).table,
        match r {
            Ok(p) => resolve(old(grammar).table(), *ty).outcome == Ok::<nat, BindError>(p as nat),
            Err(e) => resolve(old(grammar).table(), *ty).outcome == Err::<nat, BindError>(e),
        },
    decreases ty,
{
    proof {
        grammar.lemma_wf();
    }
    match ty {
        TypeExpr::Named(name) => {
            match grammar.lookup(name) {
                Some(p) => Ok(p),
                None => Err(BindError::UnknownType),
            }
        },
        TypeExpr::Repeat0(inner) => {
            match resolve_type(grammar, inner) {
                Ok(item) => {
                    proof {
                        lemma_resolve(old(grammar).table(), **inner);
                    }
                    grammar.repeat0(item)
                },
                Err(e) => Err(e),
            }
        },
        TypeExpr::Repeat1(inner) => {
            match resolve_type(grammar, inner) {
                Ok(item) => {
                    proof {
                        lemma_resolve(old(grammar).table(), **inner);
                    }
                    grammar.repeat1(item)
                },
                Err(e) => Err(e),
            }
        },
        TypeExpr::Optional(inner) => {
            match resolve_type(grammar, inner) {
                Ok(item) => {
                    proof {
                        lemma_resolve(old(grammar).table(), **inner);
                    }
                    grammar.optional(item)
                },
                Err(e) => Err(e),
            }
        },
        TypeExpr::Punctuated(first, second) => {
            match resolve_type(grammar, first) {
                Ok(item) => {
                    let ghost middle = grammar.table();
                    proof {
                        lemma_resolve(old(grammar).table(), **first);
                    }
                    match resolve_type(grammar, second) {
                        Ok(separator) => {
                            proof {
                                lemma_resolve(middle, **second);
                            }
                            grammar.punctuated(item, separator)
                        },
                        Err(e) => Err(e),
                    }
                },
                Err(e) => Err(e),
            }
        },
    }
}

/// A table and the productions in it that stand for the members of a
/// declaration, with the names of the members, or the reason why a member
/// stands for none.
pub struct Members {
    pub table: Table,
    pub outcome: Result<(Seq<nat>, Seq<Seq<char>>), BindError>,
}

/// `rest` with one member more at the front.
pub open spec fn with_member(p: nat, name: Seq<char>, rest: Members) -> Members {
    match rest.outcome {
        Ok((refs, labels)) => Members {
            table: rest.table,
            outcome: Ok((seq![p] + refs, seq![name] + labels)),
        },
        Err(_) => rest,
    }
}

/// The productions that stand for the fields of a record from the `k`-th
/// on. The field `id` is the identity of the record and stands for none.
pub open spec fn resolve_fields(table: Table, fields: Seq<Field>, k: nat) -> Members
    decreases fields.len() - k,
{
    if k >= fields.len() {
        Members { table, outcome: Ok((Seq::empty(), Seq::empty())) }
    } else if fields[k as int].name@ == "id"@ {
        resolve_fields(table, fields, k + 1)
    } else {
        let r = resolve(table, fields[k as int].ty);
        match r.outcome {
            Ok(p) => with_member(p, fields[k as int].name@, resolve_fields(r.table, fields, k + 1)),
            Err(e) => Members { table: r.table, outcome: Err(e) },
        }
    }
}

/// The type that the variant wraps, where it wraps exactly one.
pub open spec fn payload(variant: Variant) -> Option<TypeExpr> {
    match variant.fields {
        Fields::Unnamed(types) => if types@.len() == 1 {
            Some(types@[0])
        } else {
            None
        },
        _ => None,
    }
}

/// The productions that stand for the payloads of the variants of a tagged
/// union from the `k`-th on. Every variant has to wrap exactly one type.
pub open spec fn resolve_variants(table: Table, variants: Seq<Variant>, k: nat) -> Members
    decreases variants.len() - k,
{
    if k >= variants.len() {
        Members { table, outcome: Ok((Seq::empty(), Seq::empty())) }
    } else {
        match payload(variants[k as int]) {
            Some(ty) => {
                let r = resolve(table, ty);
                match r.outcome {
                    Ok(p) => with_member(
                        p,
                        variants[k as int].name@,
                        resolve_variants(r.table, variants, k + 1),
                    ),
                    Err(e) => Members { table: r.table, outcome: Err(e) },
                }
            },
            None => Members { table, outcome: Err(BindError::UnsupportedShape) },
        }
    }
}

/// Whether one of `fields` has the name `name`.
pub open spec fn has_field(fields: Seq<Field>, name: Seq<char>) -> bool {
    exists|k: int| 0 <= k < fields.len() && (#[trigger] fields[k]).name@ == name
}

/// The table with the production that `decl` describes at its end, behind
/// the productions for the types that `decl` builds from others; or the
/// reason why `decl` describes no production of a grammar over the
/// alphabet of the name `alphabet`.
pub open spec fn syntax_tree_of(table: Table, alphabet: Seq<char>, decl: Declaration) -> Result<
    Table,
    BindError,
> {
    if decl.attributes@.len() != 1 {
        Err(BindError::Attribute)
    } else {
        match decl.attributes@[0] {
            Attribute::Other => Err(BindError::Attribute),
            Attribute::Paren(nominated) => {
                if nominated@ != alphabet {
                    Err(BindError::ForeignAlphabet)
                } else if find(table.names, decl.name@) is Some {
                    Err(BindError::DuplicateName)
                } else {
                    match decl.data {
                        Data::Struct(Fields::Named(fields)) => {
                            if !has_field(fields@, "id"@) {
                                Err(BindError::MissingId)
                            } else {
                                let members = resolve_fields(table, fields@, 0);
                                match members.outcome {
                                    Ok((refs, labels)) => Ok(
                                        members.table.with(
                                            Some(decl.name@),
                                            labels,
                                            Rule::Sequence { fields: refs },
                                        ),
                                    ),
                                    Err(e) => Err(e),
                                }
                            }
                        },
                        Data::Struct(_) => Err(BindError::UnsupportedShape),
                        Data::Enum(variants) => {
                            if variants@.len() == 0 {
                                Err(BindError::UnsupportedShape)
                            } else {
                                let members = resolve_variants(table, variants@, 0);
                                match members.outcome {
                                    Ok((refs, labels)) => Ok(
                                        members.table.with(
                                            Some(decl.name@),
                                            labels,
                                            Rule::Choice { alternatives: refs },
                                        ),
                                    ),
                                    Err(e) => Err(e),
                                }
                            }
                        },
                        Data::Union => Err(BindError::UnsupportedShape),
                    }
                }
            },
        }
    }
}

/// The name of the type of token record that the variant wraps, where it
/// wraps exactly one type and that type is a name.
pub open spec fn record(variant: Variant) -> Option<Seq<char>> {
    match payload(variant) {
        Some(TypeExpr::Named(name)) => Some(name@),
        _ => None,
    }
}

/// The table with one leaf more for each variant from the `k`-th on: the
/// leaf for the `j`-th variant has the name of the record that the variant
/// wraps and matches the tokens of the variant `j`. No two variants may
/// wrap the same type of record.
pub open spec fn leaves_of(table: Table, variants: Seq<Variant>, k: nat) -> Result<Table, BindError>
    decreases variants.len() - k,
{
    if k >= variants.len() {
        Ok(table)
    } else {
        match record(variants[k as int]) {
            Some(name) => {
                if find(table.names, name) is Some {
                    Err(BindError::DuplicateName)
                } else {
                    leaves_of(
                        table.with(Some(name), Seq::empty(), Rule::Leaf { kind: k }),
                        variants,
                        k + 1,
                    )
                }
            },
            None => Err(BindError::UnsupportedShape),
        }
    }
}

/// The table of the alphabet that `decl` declares, or the reason why it
/// declares none.
pub open spec fn token_set_of(decl: Declaration) -> Result<Table, BindError> {
    match decl.data {
        Data::Enum(variants) => leaves_of(Table::empty(), variants@, 0),
        _ => Err(BindError::UnsupportedShape),
    }
}

/// Whether `decl` declares a token record: a record with named fields, one
/// of them `span`.
pub open spec fn token_of(decl: Declaration) -> Result<(), BindError> {
    match decl.data {
        Data::Struct(Fields::Named(fields)) => {
            if has_field(fields@, "span"@) {
                Ok(())
            } else {
                Err(BindError::MissingSpan)
            }
        },
        _ => Err(BindError::UnsupportedShape),
    }
}

/// Whether one of `fields` has the name `name`.
fn find_field(fields: &Vec<Field>, name: &String) -> (r: bool)
    ensures
        r == has_field(fields@, name@),
{
    let mut k: usize = 0;
    while k < fields.len()
        invariant
            k <= fields.len(),
            forall|j: int| 0 <= j < k ==> (#[trigger] fields@[j]).name@ != name@,
        decreases fields.len() - k,
    {
        if fields[k].name == *name {
            return true;
        }
        k += 1;
    }
    false
}

/// Checks that `decl` declares a token record.
pub fn derive_token(decl: &Declaration) -> (r: Result<(), BindError>)
    ensures
        r == token_of(*decl),
{
    match &decl.data {
        Data::Struct(Fields::Named(fields)) => {
            let span = String::from_str("span");
            if find_field(fields, &span) {
                Ok(())
            } else {
                Err(BindError::MissingSpan)
            }
        },
        _ => Err(BindError::UnsupportedShape),
    }
}

/// Makes the grammar of the alphabet that `decl` declares: one leaf for
/// each variant, named after the record that the variant wraps.
pub fn derive_token_set(decl: &Declaration) -> (r: Result<Grammar, BindError>)
    ensures
        match r {
            Ok(grammar) => {
                &&& grammar.wf()
                &&& grammar.alphabet() == decl.name@
                &&& token_set_of(*decl) == Ok::<Table, BindError>(grammar.table())
            },
            Err(e) => token_set_of(*decl) == Err::<Table, BindError>(e),
        },
{
    match &decl.data {
        Data::Enum(variants) => {
            let mut grammar = Grammar::new(decl.name.clone());
            let mut k: usize = 0;
            assert(grammar.table() == Table::empty());
            while k < variants.len()
                invariant
                    k <= variants.len(),
                    grammar.wf(),
                    grammar.alphabet() == decl.name@,
                    decl.data == Data::Enum(*variants),
                    token_set_of(*decl) == leaves_of(grammar.table(), variants@, k as nat),
                decreases variants.len() - k,
            {
                let name = match &variants[k].fields {
                    Fields::Unnamed(types) => {
                        if types.len() == 1 {
                            match &types[0] {
                                TypeExpr::Named(name) => Some(name),
                                _ => None,
                            }
                        } else {
                            None
                        }
                    },
                    _ => None,
                };
                match name {
                    Some(name) => {
                        if grammar.lookup(name).is_some() {
                            return Err(BindError::DuplicateName);
                        }
                        grammar.leaf(name.clone(), k);
                    },
                    None => {
                        return Err(BindError::UnsupportedShape);
                    },
                }
                k += 1;
            }
            Ok(grammar)
        },
        _ => Err(BindError::UnsupportedShape),
    }
}

/// Puts the production that `decl` describes into `grammar` and returns
/// its index. A declaration that is refused leaves the grammar as it was.
pub fn derive_syntax_tree(grammar: &mut Grammar, decl: &Declaration) -> (r: Result<usize, BindError>)
    requires
        old(grammar).wf(),
    ensures
        final(grammar).wf(),
        final(grammar).alphabet() == old(grammar).alphabet(),
        match r {
            Ok(p) => {
                &&& syntax_tree_of(old(grammar).table(), old(grammar).alphabet(), *decl) == Ok::<
                    Table,
                    BindError,
                >(final(grammar).table())
                &&& p + 1 == final(grammar).rules().len()
            },
            Err(e) => {
                &&& syntax_tree_of(old(grammar).table(), old(grammar).alphabet(), *decl) == Err::<
                    Table,
                    BindError,
                >(e)
                &&& final(grammar).table() == old(grammar).table()
            },
        },
{
    if decl.attributes.len() != 1 {
        return Err(BindError::Attribute);
    }
    match &decl.attributes[0] {
        Attribute::Other => {
            return Err(BindError::Attribute);
        },
        Attribute::Paren(nominated) => {
            if !(*nominated == *grammar.alphabet_name()) {
                return Err(BindError::ForeignAlphabet);
            }
        },
    }
    if grammar.lookup(&decl.name).is_some() {
        return Err(BindError::DuplicateName);
    }
    let mark = grammar.len();
    proof {
        grammar.lemma_wf();
    }
    match &decl.data {
        Data::Struct(Fields::Named(fields)) => {
            let id = String::from_str("id");
            if !find_field(fields, &id) {
                return Err(BindError::MissingId);
            }
            match bind_fields(grammar, fields, &id) {
                Ok((refs, labels)) => {
                    proof {
                        lemma_resolve_fields(old(grammar).table(), fields@, 0);
                    }
                    grammar.sequence(decl.name.clone(), labels, refs)
                },
                Err(e) => {
                    proof {
                        lemma_resolve_fields(old(grammar).table(), fields@, 0);
                    }
                    grammar.truncate(mark);
                    Err(e)
                },
            }
        },
        Data::Struct(_) => Err(BindError::UnsupportedShape),
        Data::Enum(variants) => {
            if variants.len() == 0 {
                return Err(BindError::UnsupportedShape);
            }
            match bind_variants(grammar, variants) {
                Ok((refs, labels)) => {
                    proof {
                        lemma_resolve_variants(old(grammar).table(), variants@, 0);
                    }
                    grammar.choice(decl.name.clone(), labels, refs)
                },
                Err(e) => {
                    proof {
                        lemma_resolve_variants(old(grammar).table(), variants@, 0);
                    }
                    grammar.truncate(mark);
                    Err(e)
                },
            }
        },
        Data::Union => Err(BindError::UnsupportedShape),
    }
}

/// Resolving the members of a declaration only adds rows to the table, and
/// the productions that it finds are in the table, one for each name.
pub proof fn lemma_resolve_fields(table: Table, fields: Seq<Field>, k: nat)
    requires
        table.columns_agree(),
    ensures
        resolve_fields(table, fields, k).table.columns_agree(),
        table.rules.len() <= resolve_fields(table, fields, k).table.rules.len(),
        resolve_fields(table, fields, k).table.take(table.rules.len()) == table,
        resolve_fields(table, fields, k).outcome matches Ok((refs, labels)) ==> refs.len()
            == labels.len() && forall|j: int|
            0 <= j < refs.len() ==> #[trigger] refs[j] < resolve_fields(
                table,
                fields,
                k,
            ).table.rules.len(),
    decreases fields.len() - k,
{
    if k >= fields.len() {
        lemma_take_all(table);
    } else if fields[k as int].name@ == "id"@ {
        lemma_resolve_fields(table, fields, k + 1);
    } else {
        let r = resolve(table, fields[k as int].ty);
        lemma_resolve(table, fields[k as int].ty);
        if r.outcome is Ok {
            let rest = resolve_fields(r.table, fields, k + 1);
            lemma_resolve_fields(r.table, fields, k + 1);
            lemma_grown(table, r.table, rest.table);
        }
    }
}

/// Resolving the variants of a tagged union only adds rows to the table,
/// and the productions that it finds are in the table, one for each name.
pub proof fn lemma_resolve_variants(table: Table, variants: Seq<Variant>, k: nat)
    requires
        table.columns_agree(),
    ensures
        resolve_variants(table, variants, k).table.columns_agree(),
        table.rules.len() <= resolve_variants(table, variants, k).table.rules.len(),
        resolve_variants(table, variants, k).table.take(table.rules.len()) == table,
        resolve_variants(table, variants, k).outcome matches Ok((refs, labels)) ==> refs.len()
            == labels.len() && forall|j: int|
            0 <= j < refs.len() ==> #[trigger] refs[j] < resolve_variants(
                table,
                variants,
                k,
            ).table.rules.len(),
    decreases variants.len() - k,
{
    if k >= variants.len() {
        lemma_take_all(table);
    } else {
        match payload(variants[k as int]) {
            Some(ty) => {
                let r = resolve(table, ty);
                lemma_resolve(table, ty);
                if r.outcome is Ok {
                    let rest = resolve_variants(r.table, variants, k + 1);
                    lemma_resolve_variants(r.table, variants, k + 1);
                    lemma_grown(table, r.table, rest.table);
                }
            },
            None => {
                lemma_take_all(table);
            },
        }
    }
}

/// `rest` with the members `refs`, of the names `labels`, at the front.
pub open spec fn with_members(refs: Seq<nat>, labels: Seq<Seq<char>>, rest: Members) -> Members {
    match rest.outcome {
        Ok((r, l)) => Members { table: rest.table, outcome: Ok((refs + r, labels + l)) },
        Err(_) => rest,
    }
}

/// Puts the productions for the fields of a record into the grammar.
fn bind_fields(grammar: &mut Grammar, fields: &Vec<Field>, id: &String) -> (r: Result<
    (Vec<usize>, Vec<String>),
    BindError,
>)
    requires
        old(grammar).wf(),
        id@ == "id"@,
    ensures
        final(grammar).wf(),
        final(grammar).alphabet() == old(grammar).alphabet(),
        final(grammar).table() == resolve_fields(old(grammar).table(), fields@, 0).table,
        match r {
            Ok((refs, labels)) => resolve_fields(old(grammar).table(), fields@, 0).outcome == Ok::<
                (Seq<nat>, Seq<Seq<char>>),
                BindError,
            >((indices(refs@), texts(labels@))),
            Err(e) => resolve_fields(old(grammar).table(), fields@, 0).outcome == Err::<
                (Seq<nat>, Seq<Seq<char>>),
                BindError,
            >(e),
        },
{
    let ghost whole = resolve_fields(grammar.table(), fields@, 0);
    let mut refs: Vec<usize> = Vec::new();
    let mut labels: Vec<String> = Vec::new();
    let mut k: usize = 0;
    proof {
        lemma_with_members_empty(whole);
    }
    while k < fields.len()
        invariant
            k <= fields.len(),
            grammar.wf(),
            grammar.alphabet() == old(grammar).alphabet(),
            id@ == "id"@,
            whole == resolve_fields(old(grammar).table(), fields@, 0),
            whole == with_members(
                indices(refs@),
                texts(labels@),
                resolve_fields(grammar.table(), fields@, k as nat),
            ),
        decreases fields.len() - k,
    {
        if !(fields[k].name == *id) {
            let ghost before = grammar.table();
            let ghost refs_before = indices(refs@);
            let ghost labels_before = texts(labels@);
            match resolve_type(grammar, &fields[k].ty) {
                Ok(p) => {
                    refs.push(p);
                    labels.push(fields[k].name.clone());
                    proof {
                        let rest = resolve_fields(grammar.table(), fields@, (k + 1) as nat);
                        assert(indices(refs@) =~= refs_before + seq![
                            p as nat,
                        ]);
                        assert(texts(labels@) =~= labels_before + seq![
                            fields@[k as int].name@,
                        ]);
                        lemma_with_members_step(
                            refs_before,
                            labels_before,
                            p as nat,
                            fields@[k as int].name@,
                            rest,
                        );
                    }
                },
                Err(e) => {
                    return Err(e);
                },
            }
        }
        k += 1;
    }
    proof {
        let done = resolve_fields(grammar.table(), fields@, k as nat);
        assert(indices(refs@) + Seq::<nat>::empty()
            =~= indices(refs@));
        assert(texts(labels@) + Seq::<Seq<char>>::empty()
            =~= texts(labels@));
    }
    Ok((refs, labels))
}

/// Puts the productions for the payloads of the variants of a tagged union
/// into the grammar.
fn bind_variants(grammar: &mut Grammar, variants: &Vec<Variant>) -> (r: Result<
    (Vec<usize>, Vec<String>),
    BindError,
>)
    requires
        old(grammar).wf(),
    ensures
        final(grammar).wf(),
        final(grammar).alphabet() == old(grammar).alphabet(),
        final(grammar).table() == resolve_variants(old(grammar).table(), variants@, 0).table,
        match r {
            Ok((refs, labels)) => resolve_variants(old(grammar).table(), variants@, 0).outcome
                == Ok::<(Seq<nat>, Seq<Seq<char>>), BindError>(
                (indices(refs@), texts(labels@)),
            ),
            Err(e) => resolve_variants(old(grammar).table(), variants@, 0).outcome == Err::<
                (Seq<nat>, Seq<Seq<char>>),
                BindError,
            >(e),
        },
{
    let ghost whole = resolve_variants(grammar.table(), variants@, 0);
    let mut refs: Vec<usize> = Vec::new();
    let mut labels: Vec<String> = Vec::new();
    let mut k: usize = 0;
    proof {
        lemma_with_members_empty(whole);
    }
    while k < variants.len()
        invariant
            k <= variants.len(),
            grammar.wf(),
            grammar.alphabet() == old(grammar).alphabet(),
            whole == resolve_variants(old(grammar).table(), variants@, 0),
            whole == with_members(
                indices(refs@),
                texts(labels@),
                resolve_variants(grammar.table(), variants@, k as nat),
            ),
        decreases variants.len() - k,
    {
        let ty = match &variants[k].fields {
            Fields::Unnamed(types) => {
                if types.len() == 1 {
                    Some(&types[0])
                } else {
                    None
                }
            },
            _ => None,
        };
        match ty {
            Some(ty) => {
                let ghost refs_before = indices(refs@);
                let ghost labels_before = texts(labels@);
                match resolve_type(grammar, ty) {
                    Ok(p) => {
                        refs.push(p);
                        labels.push(variants[k].name.clone());
                        proof {
                            let rest = resolve_variants(
                                grammar.table(),
                                variants@,
                                (k + 1) as nat,
                            );
                            assert(indices(refs@) =~= refs_before + seq![
                                p as nat,
                            ]);
                            assert(texts(labels@) =~= labels_before
                                + seq![variants@[k as int].name@]);
                            lemma_with_members_step(
                                refs_before,
                                labels_before,
                                p as nat,
                                variants@[k as int].name@,
                                rest,
                            );
                        }
                    },
                    Err(e) => {
                        return Err(e);
                    },
                }
            },
            None => {
                return Err(BindError::UnsupportedShape);
            },
        }
        k += 1;
    }
    proof {
        assert(indices(refs@) + Seq::<nat>::empty()
            =~= indices(refs@));
        assert(texts(labels@) + Seq::<Seq<char>>::empty()
            =~= texts(labels@));
    }
    Ok((refs, labels))
}

proof fn lemma_with_members_empty(rest: Members)
    ensures
        rest == with_members(Seq::empty(), Seq::empty(), rest),
{
    match rest.outcome {
        Ok((r, l)) => {
            assert(Seq::<nat>::empty() + r =~= r);
            assert(Seq::<Seq<char>>::empty() + l =~= l);
        },
        Err(_) => {},
    }
}

proof fn lemma_with_members_step(
    refs: Seq<nat>,
    labels: Seq<Seq<char>>,
    p: nat,
    name: Seq<char>,
    rest: Members,
)
    ensures
        with_members(refs, labels, with_member(p, name, rest)) == with_members(
            refs + seq![p],
            labels + seq![name],
            rest,
        ),
{
    match rest.outcome {
        Ok((r, l)) => {
            assert(refs + (seq![p] + r) =~= (refs + seq![p]) + r);
            assert(labels + (seq![name] + l) =~= (labels + seq![name]) + l);
        },
        Err(_) => {},
    }
}

} // verus!
