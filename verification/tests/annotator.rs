use neco::types_and_values::{Annotator, Type, TypeConflict};

#[test]
fn test_annotator_1() {
    // 1 + 2
    let mut annotator = Annotator::new();
    let left = annotator.create_annotation(Type::InferInteger);
    let right = annotator.create_annotation(Type::InferInteger);
    let res = annotator.create_annotation(Type::Infer);
    annotator.same(&[res, left, right]);
    assert_eq!(annotator.annotate(Type::Int(32)), Ok(()));
    let ty_left = annotator.get_ty(left);
    let ty_right = annotator.get_ty(right);
    let ty_res = annotator.get_ty(res);
    assert_eq!(ty_left, Type::Int(32));
    assert_eq!(ty_right, Type::Int(32));
    assert_eq!(ty_res, Type::Int(32));
}

#[test]
fn test_annotator_2() {
    // x + x * 2
    let mut annotator = Annotator::new();
    let id_x = annotator.create_annotation(Type::Infer);
    let id_2 = annotator.create_annotation(Type::InferInteger);
    let x_times_2 = annotator.create_annotation(Type::Infer);
    annotator.same(&[id_x, id_2, x_times_2]);
    let res = annotator.create_annotation(Type::Infer);
    annotator.same(&[id_x, x_times_2, res]);
    assert_eq!(annotator.annotate(Type::Int(32)), Ok(()));
    assert_eq!(annotator.get_ty(id_x), Type::Int(32));
    assert_eq!(annotator.get_ty(id_2), Type::Int(32));
}

#[test]
fn defaulting_reaches_every_slot() {
    let mut annotator = Annotator::new();
    let a = annotator.create_annotation(Type::InferInteger);
    let b = annotator.create_annotation(Type::InferInteger);
    let c = annotator.create_annotation(Type::Infer);
    annotator.same(&[c, a]);
    annotator.same(&[c, b]);
    annotator.same(&[a, b]);
    assert_eq!(annotator.annotate(Type::Int(32)), Ok(()));
    assert_eq!(annotator.get_ty(a), Type::Int(32));
    assert_eq!(annotator.get_ty(b), Type::Int(32));
    assert_eq!(annotator.get_ty(c), Type::Int(32));
}

#[test]
fn transitive_infer_is_resolved() {
    let mut annotator = Annotator::new();
    let x = annotator.create_annotation(Type::Infer);
    let two = annotator.create_annotation(Type::InferInteger);
    let xt2 = annotator.create_annotation(Type::Infer);
    let r = annotator.create_annotation(Type::Infer);
    annotator.same(&[x, two]);
    annotator.same(&[xt2, x]);
    annotator.same(&[xt2, two]);
    annotator.same(&[x, xt2]);
    annotator.same(&[r, x]);
    annotator.same(&[r, xt2]);
    assert_eq!(annotator.annotate(Type::Int(32)), Ok(()));
    assert_eq!(annotator.get_ty(x), Type::Int(32));
    assert_eq!(annotator.get_ty(two), Type::Int(32));
    assert_eq!(annotator.get_ty(xt2), Type::Int(32));
    assert_eq!(annotator.get_ty(r), Type::Int(32));
}

#[test]
fn annotate_twice_changes_nothing() {
    let mut annotator = Annotator::new();
    let a = annotator.create_annotation(Type::Infer);
    let b = annotator.create_annotation(Type::InferInteger);
    let c = annotator.create_annotation(Type::Int(8));
    let d = annotator.create_annotation(Type::Infer);
    annotator.same(&[a, b, c]);
    assert_eq!(annotator.annotate(Type::Int(32)), Ok(()));
    let once = [
        annotator.get_ty(a),
        annotator.get_ty(b),
        annotator.get_ty(c),
        annotator.get_ty(d),
    ];
    assert_eq!(once, [Type::Int(8), Type::Int(8), Type::Int(8), Type::Infer]);
    assert_eq!(annotator.annotate(Type::Int(32)), Ok(()));
    let twice = [
        annotator.get_ty(a),
        annotator.get_ty(b),
        annotator.get_ty(c),
        annotator.get_ty(d),
    ];
    assert_eq!(once, twice);
}

#[test]
fn bool_against_integer_is_a_conflict() {
    let mut annotator = Annotator::new();
    let flag = annotator.create_annotation(Type::Bool);
    let number = annotator.create_annotation(Type::Int(16));
    let open = annotator.create_annotation(Type::Infer);
    annotator.same(&[open, flag]);
    annotator.same(&[flag, number]);
    assert_eq!(
        annotator.annotate(Type::Int(32)),
        Err(TypeConflict { first: flag, second: number })
    );
    // The equation before the conflict was applied; the pass stopped there.
    assert_eq!(annotator.get_ty(open), Type::Bool);
    assert_eq!(annotator.get_ty(flag), Type::Bool);
    assert_eq!(annotator.get_ty(number), Type::Int(16));
}

#[test]
fn bool_against_open_integer_is_a_conflict() {
    let mut annotator = Annotator::new();
    let flag = annotator.create_annotation(Type::Bool);
    let literal = annotator.create_annotation(Type::InferInteger);
    annotator.same(&[literal, flag]);
    assert_eq!(
        annotator.annotate(Type::Int(32)),
        Err(TypeConflict { first: literal, second: flag })
    );
    assert_eq!(annotator.get_ty(literal), Type::InferInteger);
}

#[test]
fn widths_are_not_unified() {
    let mut annotator = Annotator::new();
    let narrow = annotator.create_annotation(Type::Int(8));
    let wide = annotator.create_annotation(Type::Int(64));
    annotator.same(&[narrow, wide]);
    assert_eq!(annotator.annotate(Type::Int(32)), Ok(()));
    assert_eq!(annotator.get_ty(narrow), Type::Int(8));
    assert_eq!(annotator.get_ty(wide), Type::Int(64));
}

#[test]
fn a_pass_that_stops_leaves_work_for_the_next() {
    // After a conflict the slots are as the pass left them, so a second run
    // may still change one.
    let mut annotator = Annotator::new();
    let a0 = annotator.create_annotation(Type::Int(8));
    let a1 = annotator.create_annotation(Type::Infer);
    let a2 = annotator.create_annotation(Type::Infer);
    let c = annotator.create_annotation(Type::Bool);
    let d = annotator.create_annotation(Type::Int(8));
    annotator.same(&[a1, a2]);
    annotator.same(&[a0, a1]);
    annotator.same(&[c, d]);
    assert_eq!(
        annotator.annotate(Type::Int(32)),
        Err(TypeConflict { first: c, second: d })
    );
    assert_eq!(annotator.get_ty(a1), Type::Int(8));
    assert_eq!(annotator.get_ty(a2), Type::Infer);
    assert_eq!(
        annotator.annotate(Type::Int(32)),
        Err(TypeConflict { first: c, second: d })
    );
    assert_eq!(annotator.get_ty(a2), Type::Int(8));
}

#[test]
fn same_of_fewer_than_two_slots_adds_nothing() {
    let mut annotator = Annotator::new();
    let a = annotator.create_annotation(Type::Infer);
    annotator.same(&[]);
    annotator.same(&[a]);
    assert_eq!(annotator.annotate(Type::Int(32)), Ok(()));
    assert_eq!(annotator.get_ty(a), Type::Infer);
}

#[test]
fn equated_slots_end_up_compatible() {
    let mut annotator = Annotator::new();
    let initial = [
        Type::Infer,
        Type::Bool,
        Type::InferInteger,
        Type::Int(8),
        Type::Infer,
        Type::Infer,
        Type::InferInteger,
        Type::Infer,
    ];
    let slots: Vec<_> = initial
        .iter()
        .map(|ty| annotator.create_annotation(ty.clone()))
        .collect();
    let equations = [(0, 1), (4, 2), (2, 3), (5, 6), (7, 7), (3, 4)];
    for (a, b) in equations {
        annotator.same(&[slots[a], slots[b]]);
    }
    assert_eq!(annotator.annotate(Type::Int(32)), Ok(()));
    let after: Vec<_> = slots.iter().map(|id| annotator.get_ty(*id)).collect();
    assert_eq!(
        after,
        vec![
            Type::Bool,
            Type::Bool,
            Type::Int(8),
            Type::Int(8),
            Type::Int(8),
            Type::Int(32),
            Type::Int(32),
            Type::Infer,
        ]
    );
    for (a, b) in equations {
        let same_kind = match (&after[a], &after[b]) {
            (Type::Bool, Type::Bool) => true,
            (Type::Int(_), Type::Int(_)) => true,
            (Type::Infer, Type::Infer) => true,
            (Type::InferInteger, Type::InferInteger) => true,
            _ => false,
        };
        assert!(same_kind);
    }
}
