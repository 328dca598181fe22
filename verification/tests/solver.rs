use tract_rules::fact::{
    fact_eq, meet, DimFact, ElemType, Fact, IntFact, ShapeFact, TypeFact, ValueFact,
};
use tract_rules::path::Path;
use tract_rules::solver::{solve, Context, Rule, SolverError};

#[test]
fn meet_refines_unknown_int() {
    let a = Fact::Int(IntFact::Any);
    let b = Fact::Int(IntFact::Only(3));
    let m = meet(&a, &b).unwrap();
    assert!(fact_eq(&m, &Fact::Int(IntFact::Only(3))));
    let m2 = meet(&b, &a).unwrap();
    assert!(fact_eq(&m2, &Fact::Int(IntFact::Only(3))));
}

#[test]
fn meet_rejects_conflicting_ints() {
    let a = Fact::Int(IntFact::Only(2));
    let b = Fact::Int(IntFact::Only(3));
    assert!(meet(&a, &b).is_err());
}

#[test]
fn meet_rejects_kind_mismatch() {
    let a = Fact::Int(IntFact::Only(2));
    let b = Fact::Dim(DimFact::Only(2));
    assert!(meet(&a, &b).is_err());
}

#[test]
fn meet_element_types() {
    let a = Fact::Typ(TypeFact::Any);
    let b = Fact::Typ(TypeFact::Only(ElemType::I32));
    let m = meet(&a, &b).unwrap();
    assert!(fact_eq(&m, &Fact::Typ(TypeFact::Only(ElemType::I32))));
    let c = Fact::Typ(TypeFact::Only(ElemType::U8));
    assert!(meet(&b, &c).is_err());
}

#[test]
fn meet_shapes_pointwise() {
    let a = Fact::Shape(ShapeFact::Dims(vec![DimFact::Any, DimFact::Only(3)]));
    let b = Fact::Shape(ShapeFact::Dims(vec![DimFact::Only(2), DimFact::Any]));
    let m = meet(&a, &b).unwrap();
    assert!(fact_eq(
        &m,
        &Fact::Shape(ShapeFact::Dims(vec![DimFact::Only(2), DimFact::Only(3)]))
    ));
}

#[test]
fn meet_rejects_rank_mismatch() {
    let a = Fact::Shape(ShapeFact::Dims(vec![DimFact::Any]));
    let b = Fact::Shape(ShapeFact::Dims(vec![DimFact::Any, DimFact::Any]));
    assert!(meet(&a, &b).is_err());
    let unknown = Fact::Shape(ShapeFact::Any);
    let m = meet(&unknown, &a).unwrap();
    assert!(fact_eq(&m, &a));
}

#[test]
fn meet_values() {
    let a = Fact::Value(ValueFact::Only(vec![1, 2]));
    let b = Fact::Value(ValueFact::Any);
    let m = meet(&a, &b).unwrap();
    assert!(fact_eq(&m, &a));
    let c = Fact::Value(ValueFact::Only(vec![1, 3]));
    assert!(meet(&a, &c).is_err());
}

#[test]
fn solve_propagates_equalities() {
    let mut ctx = Context::new();
    let rules = vec![
        Rule::Equals(Path::new(vec![0, 0, 1]), Path::new(vec![1, 0, 1])),
        Rule::Given(Path::new(vec![0, 0, 1]), Fact::Int(IntFact::Only(2))),
    ];
    assert!(solve(&mut ctx, &rules).is_ok());
    let input_rank = ctx.get(&Path::new(vec![0, 0, 1])).unwrap();
    assert!(fact_eq(input_rank, &Fact::Int(IntFact::Only(2))));
    let output_rank = ctx.get(&Path::new(vec![1, 0, 1])).unwrap();
    assert!(fact_eq(output_rank, &Fact::Int(IntFact::Only(2))));
}

#[test]
fn solve_unifies_partial_shapes() {
    let mut ctx = Context::new();
    ctx.set(
        &Path::new(vec![0, 0, 2]),
        Fact::Shape(ShapeFact::Dims(vec![DimFact::Only(2), DimFact::Any])),
    );
    ctx.set(
        &Path::new(vec![1, 0, 2]),
        Fact::Shape(ShapeFact::Dims(vec![DimFact::Any, DimFact::Only(4)])),
    );
    let rules = vec![Rule::Equals(Path::new(vec![0, 0, 2]), Path::new(vec![1, 0, 2]))];
    assert!(solve(&mut ctx, &rules).is_ok());
    let expected = Fact::Shape(ShapeFact::Dims(vec![DimFact::Only(2), DimFact::Only(4)]));
    assert!(fact_eq(ctx.get(&Path::new(vec![0, 0, 2])).unwrap(), &expected));
    assert!(fact_eq(ctx.get(&Path::new(vec![1, 0, 2])).unwrap(), &expected));
}

#[test]
fn solve_converges_partially_unknown() {
    // Stability, not full determination, ends the run: the output
    // shape stays partially unknown and the solve still succeeds.
    let mut ctx = Context::new();
    ctx.set(
        &Path::new(vec![1, 0, 2]),
        Fact::Shape(ShapeFact::Dims(vec![DimFact::Any, DimFact::Any])),
    );
    let rules = vec![Rule::Given(
        Path::new(vec![1, 0, 2]),
        Fact::Shape(ShapeFact::Dims(vec![DimFact::Only(7), DimFact::Any])),
    )];
    assert!(solve(&mut ctx, &rules).is_ok());
    let expected = Fact::Shape(ShapeFact::Dims(vec![DimFact::Only(7), DimFact::Any]));
    assert!(fact_eq(ctx.get(&Path::new(vec![1, 0, 2])).unwrap(), &expected));
}

#[test]
fn solve_is_idempotent() {
    let mut ctx = Context::new();
    let rules = vec![
        Rule::Given(Path::new(vec![0, 0, 1]), Fact::Int(IntFact::Only(2))),
        Rule::Equals(Path::new(vec![0, 0, 1]), Path::new(vec![1, 0, 1])),
        Rule::Equals(Path::new(vec![1, 0, 2]), Path::new(vec![0, 0, 2])),
    ];
    assert!(solve(&mut ctx, &rules).is_ok());
    let before_in = ctx.get(&Path::new(vec![0, 0, 1])).unwrap().duplicate();
    let before_out = ctx.get(&Path::new(vec![1, 0, 1])).unwrap().duplicate();
    assert!(solve(&mut ctx, &rules).is_ok());
    assert!(fact_eq(ctx.get(&Path::new(vec![0, 0, 1])).unwrap(), &before_in));
    assert!(fact_eq(ctx.get(&Path::new(vec![1, 0, 1])).unwrap(), &before_out));
}

#[test]
fn solve_is_order_independent() {
    let forwards = vec![
        Rule::Given(Path::new(vec![0, 0, 1]), Fact::Int(IntFact::Only(2))),
        Rule::Equals(Path::new(vec![0, 0, 1]), Path::new(vec![1, 0, 1])),
        Rule::Equals(Path::new(vec![1, 0, 1]), Path::new(vec![1, 1, 1])),
    ];
    let backwards = vec![
        Rule::Equals(Path::new(vec![1, 0, 1]), Path::new(vec![1, 1, 1])),
        Rule::Equals(Path::new(vec![0, 0, 1]), Path::new(vec![1, 0, 1])),
        Rule::Given(Path::new(vec![0, 0, 1]), Fact::Int(IntFact::Only(2))),
    ];
    let mut ctx1 = Context::new();
    let mut ctx2 = Context::new();
    assert!(solve(&mut ctx1, &forwards).is_ok());
    assert!(solve(&mut ctx2, &backwards).is_ok());
    for path in [vec![0, 0, 1], vec![1, 0, 1], vec![1, 1, 1]] {
        let f1 = ctx1.get(&Path::new(path.clone())).unwrap();
        let f2 = ctx2.get(&Path::new(path)).unwrap();
        assert!(fact_eq(f1, f2));
        assert!(fact_eq(f1, &Fact::Int(IntFact::Only(2))));
    }
}

#[test]
fn solve_reports_contradiction() {
    let mut ctx = Context::new();
    let rules = vec![
        Rule::Given(Path::new(vec![0, 0, 1]), Fact::Int(IntFact::Only(2))),
        Rule::Given(Path::new(vec![0, 0, 1]), Fact::Int(IntFact::Only(3))),
    ];
    let r = solve(&mut ctx, &rules);
    match r {
        Err(SolverError::Contradiction { rule, path }) => {
            assert_eq!(rule, 1);
            assert_eq!(path, Path::new(vec![0, 0, 1]));
        }
        _ => panic!("expected a contradiction"),
    }
    // The failing unification wrote nothing: the fact keeps the first
    // rule's refinement and never silently takes the second.
    let f = ctx.get(&Path::new(vec![0, 0, 1])).unwrap();
    assert!(fact_eq(f, &Fact::Int(IntFact::Only(2))));
}

#[test]
fn solve_composes_shape_and_dimension() {
    let mut ctx = Context::new();
    ctx.set(
        &Path::new(vec![0, 0, 2]),
        Fact::Shape(ShapeFact::Dims(vec![DimFact::Any, DimFact::Only(7)])),
    );
    ctx.set(&Path::new(vec![0, 0, 2, 0]), Fact::Dim(DimFact::Only(3)));
    ctx.set(&Path::new(vec![0, 0, 2, 1]), Fact::Dim(DimFact::Any));
    let rules: Vec<Rule> = Vec::new();
    assert!(solve(&mut ctx, &rules).is_ok());
    // Refining one component refined the container, and the container
    // refined its other component.
    let expected = Fact::Shape(ShapeFact::Dims(vec![DimFact::Only(3), DimFact::Only(7)]));
    assert!(fact_eq(ctx.get(&Path::new(vec![0, 0, 2])).unwrap(), &expected));
    assert!(fact_eq(
        ctx.get(&Path::new(vec![0, 0, 2, 1])).unwrap(),
        &Fact::Dim(DimFact::Only(7))
    ));
}

#[test]
fn solve_relates_dimension_rules_to_shapes() {
    let mut ctx = Context::new();
    ctx.set(
        &Path::new(vec![1, 0, 2]),
        Fact::Shape(ShapeFact::Dims(vec![DimFact::Any, DimFact::Any])),
    );
    let rules = vec![Rule::Given(Path::new(vec![1, 0, 2, 0]), Fact::Dim(DimFact::Only(5)))];
    assert!(solve(&mut ctx, &rules).is_ok());
    let expected = Fact::Shape(ShapeFact::Dims(vec![DimFact::Only(5), DimFact::Any]));
    assert!(fact_eq(ctx.get(&Path::new(vec![1, 0, 2])).unwrap(), &expected));
}

#[test]
fn solve_rejects_incoherent_bindings() {
    let mut ctx = Context::new();
    ctx.set(
        &Path::new(vec![0, 0, 2]),
        Fact::Shape(ShapeFact::Dims(vec![DimFact::Only(3), DimFact::Only(7)])),
    );
    ctx.set(&Path::new(vec![0, 0, 2, 1]), Fact::Dim(DimFact::Only(4)));
    let rules: Vec<Rule> = Vec::new();
    match solve(&mut ctx, &rules) {
        Err(SolverError::Incoherent { path }) => {
            assert_eq!(path, Path::new(vec![0, 0, 2, 1]));
        }
        _ => panic!("expected an incoherence"),
    }
}

#[test]
fn solve_rejects_out_of_rank_dimension() {
    let mut ctx = Context::new();
    ctx.set(
        &Path::new(vec![0, 0, 2]),
        Fact::Shape(ShapeFact::Dims(vec![DimFact::Only(3)])),
    );
    ctx.set(&Path::new(vec![0, 0, 2, 5]), Fact::Dim(DimFact::Any));
    let rules: Vec<Rule> = Vec::new();
    assert!(matches!(
        solve(&mut ctx, &rules),
        Err(SolverError::Incoherent { .. })
    ));
}

#[test]
fn solve_computes_rank_from_shape() {
    let mut ctx = Context::new();
    ctx.set(
        &Path::new(vec![0, 0, 2]),
        Fact::Shape(ShapeFact::Dims(vec![DimFact::Any, DimFact::Only(4), DimFact::Any])),
    );
    let rules = vec![Rule::RankOf(Path::new(vec![0, 0, 1]), Path::new(vec![0, 0, 2]))];
    assert!(solve(&mut ctx, &rules).is_ok());
    let rank = ctx.get(&Path::new(vec![0, 0, 1])).unwrap();
    assert!(fact_eq(rank, &Fact::Int(IntFact::Only(3))));
}

#[test]
fn solve_rejects_rank_conflicting_with_shape() {
    let mut ctx = Context::new();
    ctx.set(
        &Path::new(vec![0, 0, 2]),
        Fact::Shape(ShapeFact::Dims(vec![DimFact::Any, DimFact::Any])),
    );
    ctx.set(&Path::new(vec![0, 0, 1]), Fact::Int(IntFact::Only(3)));
    let rules = vec![Rule::RankOf(Path::new(vec![0, 0, 1]), Path::new(vec![0, 0, 2]))];
    assert!(matches!(
        solve(&mut ctx, &rules),
        Err(SolverError::Contradiction { rule: 0, .. })
    ));
}
