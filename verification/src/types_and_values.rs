//! Types, values, and the annotator that infers the types of value slots
//! from equations between them.

pub mod bit_vector;

use bit_vector::BitVector;
use vstd::prelude::*;

verus! {

#[derive(Debug, Clone, Copy, PartialEq, Eq, PartialOrd, Ord, Hash)]
pub struct TypeId(usize);

/// The name of a slot of an [`Annotator`].
#[derive(Debug, Clone, Copy, PartialEq, Eq, PartialOrd, Ord, Hash)]
pub struct AnnotationId(usize);

impl AnnotationId {
    /// The index of the slot.
    pub closed spec fn index(&self) -> nat {
        self.0 as nat
    }
}

/// What is known of the type of a slot. `Infer` stands for any type,
/// `InferInteger` for any integer type.
#[derive(Debug, PartialEq, Eq, PartialOrd, Ord, Hash)]
pub enum Type {
    Bool,
    Int(usize),
    Infer,
    InferInteger,
}

impl Clone for Type {
    fn clone(&self) -> (r: Type)
        ensures
            r == *self,
    {
        match self {
            Type::Bool => Type::Bool,
            Type::Int(width) => Type::Int(*width),
            Type::Infer => Type::Infer,
            Type::InferInteger => Type::InferInteger,
        }
    }
}

#[derive(Debug, Clone, PartialEq, Eq, PartialOrd, Ord, Hash)]
pub enum Value {
    Bool { v: bool },
    Int { v: BitVector },
    IntString { s: String },
}

/// An equation between two slots.
#[derive(Debug, Clone, PartialEq, Eq, PartialOrd, Ord, Hash)]
pub enum TypeRel {
    Same(AnnotationId, AnnotationId),
}

/// The two slots of an equation that cannot hold: one is `Bool` and the
/// other is an integer.
#[derive(Debug, Clone, Copy, PartialEq, Eq)]
pub struct TypeConflict {
    pub first: AnnotationId,
    pub second: AnnotationId,
}

/// What an equation does to its two slots.
pub enum Resolution {
    /// Neither slot changes.
    Keep,
    /// The first slot takes the type of the second.
    SetFirst,
    /// The second slot takes the type of the first.
    SetSecond,
    /// The two types cannot be the same.
    Conflict,
}

/// The resolution of an equation between a slot of type `a` and one of type
/// `b`. Integers of different widths are left as they are.
pub open spec fn resolve(a: Type, b: Type) -> Resolution {
    match (a, b) {
        (Type::Bool, Type::Bool) => Resolution::Keep,
        (Type::Bool, Type::Int(_)) => Resolution::Conflict,
        (Type::Bool, Type::Infer) => Resolution::SetSecond,
        (Type::Bool, Type::InferInteger) => Resolution::Conflict,
        (Type::Int(_), Type::Bool) => Resolution::Conflict,
        (Type::Int(_), Type::Int(_)) => Resolution::Keep,
        (Type::Int(_), Type::Infer) => Resolution::SetSecond,
        (Type::Int(_), Type::InferInteger) => Resolution::SetSecond,
        (Type::Infer, Type::Bool) => Resolution::SetFirst,
        (Type::Infer, Type::Int(_)) => Resolution::SetFirst,
        (Type::Infer, Type::Infer) => Resolution::Keep,
        (Type::Infer, Type::InferInteger) => Resolution::SetFirst,
        (Type::InferInteger, Type::Bool) => Resolution::Conflict,
        (Type::InferInteger, Type::Int(_)) => Resolution::SetFirst,
        (Type::InferInteger, Type::Infer) => Resolution::SetSecond,
        (Type::InferInteger, Type::InferInteger) => Resolution::Keep,
    }
}

/// The slots after some work on them, and the equation at which the work
/// stopped, if it met one that cannot hold.
pub struct Outcome {
    pub slots: Seq<Type>,
    pub conflict: Option<(nat, nat)>,
}

/// Every equation is between two slots that exist.
pub open spec fn in_range(n: nat, rels: Seq<(nat, nat)>) -> bool {
    forall|k: int| 0 <= k < rels.len() ==> (#[trigger] rels[k]).0 < n && rels[k].1 < n
}

/// One equation, between the slots `a` and `b`, applied to `slots`.
pub open spec fn apply(slots: Seq<Type>, a: nat, b: nat) -> Outcome
    recommends
        a < slots.len(),
        b < slots.len(),
{
    match resolve(slots[a as int], slots[b as int]) {
        Resolution::Keep => Outcome { slots, conflict: None },
        Resolution::SetFirst => Outcome {
            slots: slots.update(a as int, slots[b as int]),
            conflict: None,
        },
        Resolution::SetSecond => Outcome {
            slots: slots.update(b as int, slots[a as int]),
            conflict: None,
        },
        Resolution::Conflict => Outcome { slots, conflict: Some((a, b)) },
    }
}

/// The equations from the `k`-th on, applied one after the other, up to the
/// first that cannot hold.
pub open spec fn pass_from(slots: Seq<Type>, rels: Seq<(nat, nat)>, k: nat) -> Outcome
    recommends
        in_range(slots.len(), rels),
    decreases rels.len() - k,
{
    if k < rels.len() {
        let o = apply(slots, rels[k as int].0, rels[k as int].1);
        if o.conflict is Some {
            o
        } else {
            pass_from(o.slots, rels, k + 1)
        }
    } else {
        Outcome { slots, conflict: None }
    }
}

/// How far a type is from being known.
pub open spec fn weight(t: Type) -> nat {
    match t {
        Type::Infer => 2,
        Type::InferInteger => 1,
        _ => 0,
    }
}

/// How far the slots are from being known, all together. Every change that
/// an equation makes brings this down.
pub open spec fn unresolved(slots: Seq<Type>) -> nat
    decreases slots.len(),
{
    if slots.len() == 0 {
        0
    } else {
        unresolved(slots.drop_last()) + weight(slots.last())
    }
}

/// Passes over all the equations, repeated until one changes nothing or
/// meets an equation that cannot hold.
pub open spec fn fixpoint(slots: Seq<Type>, rels: Seq<(nat, nat)>) -> Outcome
    decreases unresolved(slots),
    when in_range(slots.len(), rels)
{
    let o = pass_from(slots, rels, 0);
    if o.conflict is Some || o.slots == slots {
        o
    } else {
        proof {
            lemma_pass_unresolved(slots, rels, 0);
        }
        fixpoint(o.slots, rels)
    }
}

/// The slots with `default` in place of every `InferInteger`.
pub open spec fn default_integers(slots: Seq<Type>, default: Type) -> Seq<Type> {
    Seq::new(
        slots.len(),
        |i: int|
            if slots[i] == Type::InferInteger {
                default
            } else {
                slots[i]
            },
    )
}

/// The whole annotation: the equations to a fixpoint, then `default` for
/// the integers still open, then the equations to a fixpoint again.
pub open spec fn solve(slots: Seq<Type>, rels: Seq<(nat, nat)>, default: Type) -> Outcome
    recommends
        in_range(slots.len(), rels),
{
    let first = fixpoint(slots, rels);
    if first.conflict is Some {
        first
    } else {
        fixpoint(default_integers(first.slots, default), rels)
    }
}

proof fn lemma_unresolved_update(slots: Seq<Type>, i: int, t: Type)
    requires
        0 <= i < slots.len(),
    ensures
        unresolved(slots.update(i, t)) + weight(slots[i]) == unresolved(slots) + weight(t),
    decreases slots.len(),
{
    let after = slots.update(i, t);
    if i == slots.len() - 1 {
        assert(after.drop_last() =~= slots.drop_last());
    } else {
        lemma_unresolved_update(slots.drop_last(), i, t);
        assert(after.drop_last() =~= slots.drop_last().update(i, t));
    }
}

/// An equation keeps the number of slots, and what it changes it brings
/// nearer to being known.
pub proof fn lemma_apply_unresolved(slots: Seq<Type>, a: nat, b: nat)
    requires
        a < slots.len(),
        b < slots.len(),
    ensures
        apply(slots, a, b).slots.len() == slots.len(),
        unresolved(apply(slots, a, b).slots) <= unresolved(slots),
        unresolved(apply(slots, a, b).slots) == unresolved(slots) <==> apply(slots, a, b).slots
            == slots,
        apply(slots, a, b).slots == slots <==> resolve(slots[a as int], slots[b as int])
            is Keep || resolve(slots[a as int], slots[b as int]) is Conflict,
{
    let ta = slots[a as int];
    let tb = slots[b as int];
    match resolve(ta, tb) {
        Resolution::SetFirst => {
            lemma_unresolved_update(slots, a as int, tb);
            assert(slots.update(a as int, tb)[a as int] == tb);
        },
        Resolution::SetSecond => {
            lemma_unresolved_update(slots, b as int, ta);
            assert(slots.update(b as int, ta)[b as int] == ta);
        },
        _ => {},
    }
}

/// A pass keeps the number of slots and brings them nearer to being known,
/// unless it changes nothing.
pub proof fn lemma_pass_unresolved(slots: Seq<Type>, rels: Seq<(nat, nat)>, k: nat)
    requires
        in_range(slots.len(), rels),
    ensures
        pass_from(slots, rels, k).slots.len() == slots.len(),
        unresolved(pass_from(slots, rels, k).slots) <= unresolved(slots),
        unresolved(pass_from(slots, rels, k).slots) == unresolved(slots) <==> pass_from(
            slots,
            rels,
            k,
        ).slots == slots,
    decreases rels.len() - k,
{
    if k < rels.len() {
        let (a, b) = rels[k as int];
        lemma_apply_unresolved(slots, a, b);
        let o = apply(slots, a, b);
        if o.conflict is None {
            lemma_pass_unresolved(o.slots, rels, k + 1);
        }
    }
}

/// Where a pass changes nothing and meets no conflict, every equation it
/// went over is at rest.
pub proof fn lemma_pass_at_rest(slots: Seq<Type>, rels: Seq<(nat, nat)>, k: nat)
    requires
        in_range(slots.len(), rels),
        pass_from(slots, rels, k) == (Outcome { slots, conflict: None }),
    ensures
        forall|j: int|
            k <= j < rels.len() ==> resolve(
                slots[(#[trigger] rels[j]).0 as int],
                slots[rels[j].1 as int],
            ) is Keep,
    decreases rels.len() - k,
{
    if k < rels.len() {
        let (a, b) = rels[k as int];
        let o = apply(slots, a, b);
        lemma_apply_unresolved(slots, a, b);
        lemma_pass_unresolved(o.slots, rels, k + 1);
        assert(o.slots == slots);
        lemma_pass_at_rest(slots, rels, k + 1);
    }
}

/// What a fixpoint without conflict leaves behind, a further pass leaves as
/// it is.
pub proof fn lemma_fixpoint_at_rest(slots: Seq<Type>, rels: Seq<(nat, nat)>)
    requires
        in_range(slots.len(), rels),
    ensures
        fixpoint(slots, rels).slots.len() == slots.len(),
        fixpoint(slots, rels).conflict is None ==> pass_from(fixpoint(slots, rels).slots, rels, 0)
            == fixpoint(slots, rels),
    decreases unresolved(slots),
{
    let o = pass_from(slots, rels, 0);
    lemma_pass_unresolved(slots, rels, 0);
    if !(o.conflict is Some || o.slots == slots) {
        lemma_fixpoint_at_rest(o.slots, rels);
    }
}

/// No slot is `InferInteger`.
pub open spec fn integers_decided(slots: Seq<Type>) -> bool {
    forall|i: int| 0 <= i < slots.len() ==> #[trigger] slots[i] != Type::InferInteger
}

proof fn lemma_pass_keeps_decided(slots: Seq<Type>, rels: Seq<(nat, nat)>, k: nat)
    requires
        in_range(slots.len(), rels),
        integers_decided(slots),
    ensures
        integers_decided(pass_from(slots, rels, k).slots),
    decreases rels.len() - k,
{
    if k < rels.len() {
        let (a, b) = rels[k as int];
        let o = apply(slots, a, b);
        lemma_apply_unresolved(slots, a, b);
        assert(integers_decided(o.slots)) by {
            assert(slots[a as int] != Type::InferInteger);
            assert(slots[b as int] != Type::InferInteger);
        }
        if o.conflict is None {
            lemma_pass_keeps_decided(o.slots, rels, k + 1);
        }
    }
}

proof fn lemma_fixpoint_keeps_decided(slots: Seq<Type>, rels: Seq<(nat, nat)>)
    requires
        in_range(slots.len(), rels),
        integers_decided(slots),
    ensures
        integers_decided(fixpoint(slots, rels).slots),
    decreases unresolved(slots),
{
    let o = pass_from(slots, rels, 0);
    lemma_pass_unresolved(slots, rels, 0);
    lemma_pass_keeps_decided(slots, rels, 0);
    if !(o.conflict is Some || o.slots == slots) {
        lemma_fixpoint_keeps_decided(o.slots, rels);
    }
}

/// An annotation that met no conflict has done all its work: annotating its
/// result again, with the same equations and the same default, changes no
/// slot and meets no conflict.
pub proof fn lemma_annotate_idempotent(slots: Seq<Type>, rels: Seq<(nat, nat)>, default: Type)
    requires
        in_range(slots.len(), rels),
        solve(slots, rels, default).conflict is None,
    ensures
        solve(solve(slots, rels, default).slots, rels, default) == solve(slots, rels, default),
{
    let first = fixpoint(slots, rels);
    let middle = default_integers(first.slots, default);
    let last = fixpoint(middle, rels);
    lemma_fixpoint_at_rest(slots, rels);
    lemma_fixpoint_at_rest(middle, rels);
    assert(fixpoint(last.slots, rels) == last);
    if default != Type::InferInteger {
        assert(integers_decided(middle));
        lemma_fixpoint_keeps_decided(middle, rels);
    }
    assert(default_integers(last.slots, default) =~= last.slots);
}

/// After an annotation that met no conflict every equation is at rest: its
/// two slots are both `Bool`, both integers, both `Infer` or both
/// `InferInteger`. So two slots of an equation that are both known are
/// both `Bool` or both integers.
pub proof fn lemma_annotate_compatible(
    slots: Seq<Type>,
    rels: Seq<(nat, nat)>,
    default: Type,
    k: int,
)
    requires
        in_range(slots.len(), rels),
        solve(slots, rels, default).conflict is None,
        0 <= k < rels.len(),
    ensures
        ({
            let after = solve(slots, rels, default).slots;
            let a = after[rels[k].0 as int];
            let b = after[rels[k].1 as int];
            &&& after.len() == slots.len()
            &&& resolve(a, b) is Keep
            &&& weight(a) == 0 && weight(b) == 0 ==> (a is Bool && b is Bool) || (a is Int
                && b is Int)
        }),
{
    let first = fixpoint(slots, rels);
    let middle = default_integers(first.slots, default);
    let last = fixpoint(middle, rels);
    lemma_fixpoint_at_rest(slots, rels);
    lemma_fixpoint_at_rest(middle, rels);
    lemma_pass_at_rest(last.slots, rels, 0);
}

proof fn lemma_pass_keeps_known(slots: Seq<Type>, rels: Seq<(nat, nat)>, k: nat, i: int)
    requires
        in_range(slots.len(), rels),
        0 <= i < slots.len(),
        weight(slots[i]) == 0,
    ensures
        pass_from(slots, rels, k).slots.len() == slots.len(),
        pass_from(slots, rels, k).slots[i] == slots[i],
    decreases rels.len() - k,
{
    if k < rels.len() {
        let (a, b) = rels[k as int];
        let o = apply(slots, a, b);
        lemma_apply_unresolved(slots, a, b);
        if o.conflict is None {
            lemma_pass_keeps_known(o.slots, rels, k + 1, i);
        }
    }
}

proof fn lemma_fixpoint_keeps_known(slots: Seq<Type>, rels: Seq<(nat, nat)>, i: int)
    requires
        in_range(slots.len(), rels),
        0 <= i < slots.len(),
        weight(slots[i]) == 0,
    ensures
        fixpoint(slots, rels).slots.len() == slots.len(),
        fixpoint(slots, rels).slots[i] == slots[i],
    decreases unresolved(slots),
{
    let o = pass_from(slots, rels, 0);
    lemma_pass_unresolved(slots, rels, 0);
    lemma_pass_keeps_known(slots, rels, 0, i);
    if !(o.conflict is Some || o.slots == slots) {
        lemma_fixpoint_keeps_known(o.slots, rels, i);
    }
}

/// A slot whose type is known keeps it: an annotation never rewrites
/// `Bool` or an integer type, so integers of different widths stay as
/// they are.
pub proof fn lemma_annotate_keeps_known(
    slots: Seq<Type>,
    rels: Seq<(nat, nat)>,
    default: Type,
    i: int,
)
    requires
        in_range(slots.len(), rels),
        0 <= i < slots.len(),
        slots[i] is Bool || slots[i] is Int,
    ensures
        solve(slots, rels, default).slots.len() == slots.len(),
        solve(slots, rels, default).slots[i] == slots[i],
{
    let first = fixpoint(slots, rels);
    lemma_fixpoint_keeps_known(slots, rels, i);
    if first.conflict is None {
        lemma_fixpoint_keeps_known(default_integers(first.slots, default), rels, i);
    }
}

/// The slots of a program's values and the equations between them.
#[derive(Debug, Clone, PartialEq, Eq, PartialOrd, Ord, Hash)]
pub struct Annotator {
    annotates: Vec<Type>,
    type_rels: Vec<TypeRel>,
}

impl Annotator {
    /// The types of the slots, by index.
    pub closed spec fn slots(&self) -> Seq<Type> {
        self.annotates@
    }

    /// The equations, in the order in which they were added, each as the
    /// indices of its two slots.
    pub closed spec fn constraints(&self) -> Seq<(nat, nat)> {
        Seq::new(
            self.type_rels@.len(),
            |k: int|
                match self.type_rels@[k] {
                    TypeRel::Same(a, b) => (a.index(), b.index()),
                },
        )
    }

    /// Every equation is between two slots that exist.
    pub open spec fn wf(&self) -> bool {
        in_range(self.slots().len(), self.constraints())
    }

    /// Whether `id` names a slot of this annotator.
    pub open spec fn has(&self, id: AnnotationId) -> bool {
        id.index() < self.slots().len()
    }

    pub fn new() -> (r: Annotator)
        ensures
            r.wf(),
            r.slots() == Seq::<Type>::empty(),
            r.constraints() == Seq::<(nat, nat)>::empty(),
    {
        let r = Annotator { annotates: Vec::new(), type_rels: Vec::new() };
        assert(r.constraints() =~= Seq::<(nat, nat)>::empty());
        r
    }

    /// Adds a slot of type `ty` and returns its name.
    pub fn create_annotation(&mut self, ty: Type) -> (r: AnnotationId)
        requires
            old(self).wf(),
        ensures
            final(self).wf(),
            r.index() == old(self).slots().len(),
            final(self).slots() == old(self).slots().push(ty),
            final(self).constraints() == old(self).constraints(),
    {
        let res = AnnotationId(self.annotates.len());
        self.annotates.push(ty);
        assert(self.constraints() =~= old(self).constraints());
        res
    }

    /// Runs the equations to a fixpoint, gives `default_integer_type` to the
    /// integers that are still open, and runs the equations to a fixpoint
    /// again. Stops at the first equation that cannot hold.
    pub fn annotate(&mut self, default_integer_type: Type) -> (r: Result<(), TypeConflict>)
        requires
            old(self).wf(),
        ensures
            final(self).wf(),
            final(self).constraints() == old(self).constraints(),
            final(self).slots() == solve(
                old(self).slots(),
                old(self).constraints(),
                default_integer_type,
            ).slots,
            match r {
                Ok(_) => solve(
                    old(self).slots(),
                    old(self).constraints(),
                    default_integer_type,
                ).conflict is None,
                Err(e) => solve(
                    old(self).slots(),
                    old(self).constraints(),
                    default_integer_type,
                ).conflict == Some((e.first.index(), e.second.index())),
            },
    {
        match self.annotate_sub() {
            Err(e) => {
                return Err(e);
            },
            Ok(_) => {},
        }
        let ghost first = self.slots();
        let n = self.annotates.len();
        let mut i: usize = 0;
        while i < n
            invariant
                i <= n,
                n == self.annotates.len(),
                n == first.len(),
                self.type_rels == old(self).type_rels,
                forall|j: int|
                    0 <= j < i ==> self.annotates@[j] == default_integers(
                        first,
                        default_integer_type,
                    )[j],
                forall|j: int| i <= j < n ==> self.annotates@[j] == first[j],
            decreases n - i,
        {
            let open = match &self.annotates[i] {
                Type::InferInteger => true,
                _ => false,
            };
            if open {
                self.annotates.set(i, default_integer_type.clone());
            }
            i += 1;
        }
        assert(self.slots() =~= default_integers(first, default_integer_type));
        assert(self.constraints() =~= old(self).constraints());
        self.annotate_sub()
    }

    /// Passes over the equations until a pass changes nothing.
    fn annotate_sub(&mut self) -> (r: Result<(), TypeConflict>)
        requires
            old(self).wf(),
        ensures
            final(self).wf(),
            final(self).type_rels == old(self).type_rels,
            final(self).slots() == fixpoint(old(self).slots(), old(self).constraints()).slots,
            match r {
                Ok(_) => fixpoint(old(self).slots(), old(self).constraints()).conflict is None,
                Err(e) => fixpoint(old(self).slots(), old(self).constraints()).conflict == Some(
                    (e.first.index(), e.second.index()),
                ),
            },
    {
        let ghost rels = self.constraints();
        let n = self.type_rels.len();
        loop
            invariant
                self.wf(),
                self.type_rels == old(self).type_rels,
                rels == self.constraints(),
                n == self.type_rels.len(),
                fixpoint(old(self).slots(), rels) == fixpoint(self.slots(), rels),
            decreases unresolved(self.slots()),
        {
            let ghost start = self.slots();
            let mut updated = false;
            let mut k: usize = 0;
            while k < n
                invariant
                    k <= n,
                    self.wf(),
                    self.type_rels == old(self).type_rels,
                    rels == self.constraints(),
                    n == self.type_rels.len(),
                    in_range(start.len(), rels),
                    self.slots().len() == start.len(),
                    fixpoint(old(self).slots(), rels) == fixpoint(start, rels),
                    pass_from(start, rels, 0) == pass_from(self.slots(), rels, k as nat),
                    unresolved(self.slots()) <= unresolved(start),
                    updated <==> unresolved(self.slots()) < unresolved(start),
                    !updated ==> self.slots() == start,
                decreases n - k,
            {
                let (a, b) = match &self.type_rels[k] {
                    TypeRel::Same(a, b) => (*a, *b),
                };
                proof {
                    assert(rels[k as int] == (a.index(), b.index()));
                    lemma_apply_unresolved(self.slots(), a.index(), b.index());
                }
                match self.infer_same(a, b) {
                    Err(e) => {
                        return Err(e);
                    },
                    Ok(changed) => {
                        updated = updated || changed;
                    },
                }
                k += 1;
            }
            if !updated {
                return Ok(());
            }
            proof {
                lemma_pass_unresolved(start, rels, 0);
            }
        }
    }

    /// Applies the equation between `id1` and `id2`, and says whether a slot
    /// changed.
    fn infer_same(&mut self, id1: AnnotationId, id2: AnnotationId) -> (r: Result<
        bool,
        TypeConflict,
    >)
        requires
            old(self).has(id1),
            old(self).has(id2),
        ensures
            final(self).type_rels == old(self).type_rels,
            final(self).slots() == apply(old(self).slots(), id1.index(), id2.index()).slots,
            match r {
                Ok(changed) => {
                    &&& apply(old(self).slots(), id1.index(), id2.index()).conflict is None
                    &&& changed <==> final(self).slots() != old(self).slots()
                },
                Err(e) => {
                    &&& apply(old(self).slots(), id1.index(), id2.index()).conflict is Some
                    &&& e.first == id1
                    &&& e.second == id2
                },
            },
    {
        proof {
            lemma_apply_unresolved(self.slots(), id1.index(), id2.index());
        }
        let first = self.annotates[id1.0].clone();
        let second = self.annotates[id2.0].clone();
        match (&first, &second) {
            (Type::Bool, Type::Bool) => Ok(false),
            (Type::Bool, Type::Int(_)) => Err(TypeConflict { first: id1, second: id2 }),
            (Type::Bool, Type::Infer) => {
                self.annotates.set(id2.0, first);
                Ok(true)
            },
            (Type::Bool, Type::InferInteger) => Err(TypeConflict { first: id1, second: id2 }),
            (Type::Int(_), Type::Bool) => Err(TypeConflict { first: id1, second: id2 }),
            (Type::Int(_), Type::Int(_)) => Ok(false),
            (Type::Int(_), Type::Infer) => {
                self.annotates.set(id2.0, first);
                Ok(true)
            },
            (Type::Int(_), Type::InferInteger) => {
                self.annotates.set(id2.0, first);
                Ok(true)
            },
            (Type::Infer, Type::Bool) => {
                self.annotates.set(id1.0, second);
                Ok(true)
            },
            (Type::Infer, Type::Int(_)) => {
                self.annotates.set(id1.0, second);
                Ok(true)
            },
            (Type::Infer, Type::Infer) => Ok(false),
            (Type::Infer, Type::InferInteger) => {
                self.annotates.set(id1.0, second);
                Ok(true)
            },
            (Type::InferInteger, Type::Bool) => Err(TypeConflict { first: id1, second: id2 }),
            (Type::InferInteger, Type::Int(_)) => {
                self.annotates.set(id1.0, second);
                Ok(true)
            },
            (Type::InferInteger, Type::Infer) => {
                self.annotates.set(id2.0, first);
                Ok(true)
            },
            (Type::InferInteger, Type::InferInteger) => Ok(false),
        }
    }

    /// Adds an equation between every two neighbours in `xs`.
    pub fn same(&mut self, xs: &[AnnotationId])
        requires
            old(self).wf(),
            forall|i: int| 0 <= i < xs@.len() ==> old(self).has(#[trigger] xs@[i]),
        ensures
            final(self).wf(),
            final(self).slots() == old(self).slots(),
            final(self).constraints() == old(self).constraints() + neighbours(xs@),
    {
        let n = xs.len();
        let mut i: usize = 1;
        assert(self.constraints() =~= old(self).constraints() + neighbours(xs@).take(0));
        while i < n
            invariant
                1 <= i,
                n == xs@.len(),
                i <= n || (n == 0 && i == 1),
                self.wf(),
                self.annotates == old(self).annotates,
                forall|i: int| 0 <= i < xs@.len() ==> self.has(#[trigger] xs@[i]),
                self.constraints() == old(self).constraints() + neighbours(xs@).take(i - 1),
            decreases n - i,
        {
            let ghost before = self.constraints();
            self.type_rels.push(TypeRel::Same(xs[i - 1], xs[i]));
            proof {
                let pair = (xs@[i - 1].index(), xs@[i as int].index());
                assert(self.constraints() =~= before.push(pair));
                assert(neighbours(xs@).take(i as int) =~= neighbours(xs@).take(i - 1).push(pair));
                assert(self.constraints() =~= old(self).constraints() + neighbours(xs@).take(
                    i as int,
                ));
            }
            i += 1;
        }
        proof {
            let all = neighbours(xs@);
            if n == 0 {
                assert(all.take(0) =~= all);
            } else {
                assert(all.take(i - 1) =~= all);
            }
        }
    }

    /// The type of the slot `id`.
    pub fn get_ty(&self, id: AnnotationId) -> (r: Type)
        requires
            self.has(id),
        ensures
            r == self.slots()[id.index() as int],
    {
        self.annotates[id.0].clone()
    }
}

/// The equations between every two neighbours in `xs`.
pub open spec fn neighbours(xs: Seq<AnnotationId>) -> Seq<(nat, nat)> {
    Seq::new(
        if xs.len() == 0 {
            0
        } else {
            (xs.len() - 1) as nat
        },
        |i: int| (xs[i].index(), xs[i + 1].index()),
    )
}

} // verus!
