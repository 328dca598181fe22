//! Partial-knowledge facts about tensor properties, with unification.
//!
//! Each fact kind forms a meet-semilattice: a bottom element ("nothing
//! known") and increasingly precise elements up to a fully determined
//! value. [`meet`] combines two facts into their most precise common
//! refinement and fails when they assert incompatible concrete values.

use vstd::prelude::*;

verus! {

/// The element type of a tensor.
#[derive(Clone, Copy, PartialEq, Eq, Structural, Debug)]
pub enum ElemType {
    Bool,
    U8,
    I8,
    U16,
    I16,
    U32,
    I32,
    U64,
    I64,
}

/// Partial knowledge of an integer-like property (a rank, a length,
/// whole-value metadata).
#[derive(Clone, Copy, PartialEq, Eq, Structural, Debug)]
pub enum IntFact {
    Any,
    Only(i64),
}

/// Partial knowledge of a tensor's element type.
#[derive(Clone, Copy, PartialEq, Eq, Structural, Debug)]
pub enum TypeFact {
    Any,
    Only(ElemType),
}

/// Partial knowledge of one dimension of a shape.
#[derive(Clone, Copy, PartialEq, Eq, Structural, Debug)]
pub enum DimFact {
    Any,
    Only(u64),
}

/// Partial knowledge of a whole shape: unknown, or a known rank with
/// possibly unknown dimensions.
#[derive(Debug)]
pub enum ShapeFact {
    Any,
    Dims(Vec<DimFact>),
}

/// Partial knowledge of a tensor's contents, flattened.
#[derive(Debug)]
pub enum ValueFact {
    Any,
    Only(Vec<i64>),
}

/// A fact at one addressed property, of whichever kind the address
/// carries.
#[derive(Debug)]
pub enum Fact {
    Int(IntFact),
    Typ(TypeFact),
    Dim(DimFact),
    Shape(ShapeFact),
    Value(ValueFact),
}

/// The mathematical value of a fact: per kind, `None` for "nothing
/// known" and `Some` for a determined value (a shape determines its
/// rank and, per dimension, possibly the extent).
pub ghost enum FactV {
    Int(Option<int>),
    Typ(Option<ElemType>),
    Dim(Option<nat>),
    Shape(Option<Seq<Option<nat>>>),
    Value(Option<Seq<int>>),
}

impl View for IntFact {
    type V = Option<int>;

    open spec fn view(&self) -> Option<int> {
        match *self {
            IntFact::Any => None,
            IntFact::Only(v) => Some(v as int),
        }
    }
}

impl View for TypeFact {
    type V = Option<ElemType>;

    open spec fn view(&self) -> Option<ElemType> {
        match *self {
            TypeFact::Any => None,
            TypeFact::Only(t) => Some(t),
        }
    }
}

impl View for DimFact {
    type V = Option<nat>;

    open spec fn view(&self) -> Option<nat> {
        match *self {
            DimFact::Any => None,
            DimFact::Only(d) => Some(d as nat),
        }
    }
}

/// The mathematical value of a dimension vector.
pub open spec fn dim_seq(s: Seq<DimFact>) -> Seq<Option<nat>> {
    s.map(|i: int, d: DimFact| d@)
}

/// The mathematical value of a flattened contents vector.
pub open spec fn value_seq(s: Seq<i64>) -> Seq<int> {
    s.map(|i: int, x: i64| x as int)
}

impl View for ShapeFact {
    type V = Option<Seq<Option<nat>>>;

    open spec fn view(&self) -> Option<Seq<Option<nat>>> {
        match *self {
            ShapeFact::Any => None,
            ShapeFact::Dims(ref dims) => Some(dim_seq(dims@)),
        }
    }
}

impl View for ValueFact {
    type V = Option<Seq<int>>;

    open spec fn view(&self) -> Option<Seq<int>> {
        match *self {
            ValueFact::Any => None,
            ValueFact::Only(ref v) => Some(value_seq(v@)),
        }
    }
}

impl View for Fact {
    type V = FactV;

    open spec fn view(&self) -> FactV {
        match *self {
            Fact::Int(ref f) => FactV::Int(f@),
            Fact::Typ(ref f) => FactV::Typ(f@),
            Fact::Dim(ref f) => FactV::Dim(f@),
            Fact::Shape(ref f) => FactV::Shape(f@),
            Fact::Value(ref f) => FactV::Value(f@),
        }
    }
}

/// Refinement between flat partial values: `a` says everything `b` says.
pub open spec fn flat_leq<T>(a: Option<T>, b: Option<T>) -> bool {
    b is None || a == b
}

/// Most precise common refinement of two flat partial values, `None`
/// on contradiction.
pub open spec fn flat_meet<T>(a: Option<T>, b: Option<T>) -> Option<Option<T>> {
    match (a, b) {
        (Option::None, _) => Some(b),
        (_, Option::None) => Some(a),
        (Option::Some(x), Option::Some(y)) => if x == y {
            Some(a)
        } else {
            None
        },
    }
}

/// Pointwise refinement between two known-rank dimension sequences.
pub open spec fn dims_leq(a: Seq<Option<nat>>, b: Seq<Option<nat>>) -> bool {
    a.len() == b.len() && forall|i: int| 0 <= i < b.len() ==> flat_leq(#[trigger] a[i], b[i])
}

/// Whether two known-rank dimension sequences agree wherever both are
/// determined.
pub open spec fn dims_compat(a: Seq<Option<nat>>, b: Seq<Option<nat>>) -> bool {
    a.len() == b.len() && forall|i: int| 0 <= i < a.len()
        ==> flat_meet(#[trigger] a[i], b[i]) is Some
}

/// Pointwise most precise common refinement of two compatible
/// dimension sequences.
pub open spec fn dims_meet(a: Seq<Option<nat>>, b: Seq<Option<nat>>) -> Seq<Option<nat>> {
    Seq::new(a.len(), |i: int| if a[i] is None {
        b[i]
    } else {
        a[i]
    })
}

/// Refinement between facts: `a` is at least as precise as `b`.
/// Facts of different kinds never refine each other.
pub open spec fn fact_leq(a: FactV, b: FactV) -> bool {
    match (a, b) {
        (FactV::Int(x), FactV::Int(y)) => flat_leq(x, y),
        (FactV::Typ(x), FactV::Typ(y)) => flat_leq(x, y),
        (FactV::Dim(x), FactV::Dim(y)) => flat_leq(x, y),
        (FactV::Value(x), FactV::Value(y)) => flat_leq(x, y),
        (FactV::Shape(x), FactV::Shape(y)) => match (x, y) {
            (_, Option::None) => true,
            (Option::None, Option::Some(_)) => false,
            (Option::Some(d1), Option::Some(d2)) => dims_leq(d1, d2),
        },
        _ => false,
    }
}

/// Unification: the most precise fact entailed by both operands, or
/// `None` when they assert mutually exclusive concrete information
/// (kind mismatch included).
pub open spec fn fact_meet(a: FactV, b: FactV) -> Option<FactV> {
    match (a, b) {
        (FactV::Int(x), FactV::Int(y)) => match flat_meet(x, y) {
            Option::Some(z) => Some(FactV::Int(z)),
            Option::None => None,
        },
        (FactV::Typ(x), FactV::Typ(y)) => match flat_meet(x, y) {
            Option::Some(z) => Some(FactV::Typ(z)),
            Option::None => None,
        },
        (FactV::Dim(x), FactV::Dim(y)) => match flat_meet(x, y) {
            Option::Some(z) => Some(FactV::Dim(z)),
            Option::None => None,
        },
        (FactV::Value(x), FactV::Value(y)) => match flat_meet(x, y) {
            Option::Some(z) => Some(FactV::Value(z)),
            Option::None => None,
        },
        (FactV::Shape(x), FactV::Shape(y)) => match (x, y) {
            (Option::None, _) => Some(FactV::Shape(y)),
            (_, Option::None) => Some(FactV::Shape(x)),
            (Option::Some(d1), Option::Some(d2)) => if dims_compat(d1, d2) {
                Some(FactV::Shape(Some(dims_meet(d1, d2))))
            } else {
                None
            },
        },
        _ => None,
    }
}

/// Refinement is reflexive.
pub proof fn lemma_fact_leq_refl(a: FactV)
    ensures
        fact_leq(a, a),
{
}

/// Refinement is transitive.
pub proof fn lemma_fact_leq_trans(a: FactV, b: FactV, c: FactV)
    requires
        fact_leq(a, b),
        fact_leq(b, c),
    ensures
        fact_leq(a, c),
{
}

/// Refinement is antisymmetric: two facts each at least as precise as
/// the other are the same fact.
pub proof fn lemma_fact_leq_antisym(a: FactV, b: FactV)
    requires
        fact_leq(a, b),
        fact_leq(b, a),
    ensures
        a == b,
{
    match (a, b) {
        (FactV::Shape(x), FactV::Shape(y)) => {
            match (x, y) {
                (Option::Some(d1), Option::Some(d2)) => {
                    assert forall|i: int| 0 <= i < d1.len() implies d1[i] == d2[i] by {
                        assert(flat_leq(d1[i], d2[i]));
                        assert(flat_leq(d2[i], d1[i]));
                    }
                    assert(d1 =~= d2);
                },
                _ => {},
            }
        },
        _ => {},
    }
}

/// The meet of two facts refines both.
pub proof fn lemma_fact_meet_lower(a: FactV, b: FactV)
    requires
        fact_meet(a, b) is Some,
    ensures
        fact_leq(fact_meet(a, b)->Some_0, a),
        fact_leq(fact_meet(a, b)->Some_0, b),
{
    match (a, b) {
        (FactV::Shape(x), FactV::Shape(y)) => {
            match (x, y) {
                (Option::Some(d1), Option::Some(d2)) => {
                    let m = dims_meet(d1, d2);
                    assert forall|i: int| 0 <= i < d1.len()
                        implies flat_leq(#[trigger] m[i], d1[i]) && flat_leq(m[i], d2[i]) by {
                        assert(flat_meet(d1[i], d2[i]) is Some);
                    }
                },
                _ => {},
            }
        },
        _ => {},
    }
}

/// Anything that refines both operands proves the meet exists and
/// refines the meet: the meet is the greatest common refinement.
pub proof fn lemma_fact_meet_glb(x: FactV, a: FactV, b: FactV)
    requires
        fact_leq(x, a),
        fact_leq(x, b),
    ensures
        fact_meet(a, b) is Some,
        fact_leq(x, fact_meet(a, b)->Some_0),
{
    match (a, b) {
        (FactV::Shape(oa), FactV::Shape(ob)) => {
            match (oa, ob) {
                (Option::Some(d1), Option::Some(d2)) => {
                    let dx = x->Shape_0->Some_0;
                    assert forall|i: int| 0 <= i < d1.len()
                        implies flat_meet(#[trigger] d1[i], d2[i]) is Some by {
                        assert(flat_leq(dx[i], d1[i]));
                        assert(flat_leq(dx[i], d2[i]));
                    }
                    let m = dims_meet(d1, d2);
                    assert forall|i: int| 0 <= i < m.len()
                        implies flat_leq(#[trigger] dx[i], m[i]) by {
                        assert(flat_leq(dx[i], d1[i]));
                        assert(flat_leq(dx[i], d2[i]));
                    }
                },
                _ => {},
            }
        },
        _ => {},
    }
}

/// Unification is commutative.
pub proof fn lemma_fact_meet_comm(a: FactV, b: FactV)
    ensures
        fact_meet(a, b) == fact_meet(b, a),
{
    match (a, b) {
        (FactV::Shape(x), FactV::Shape(y)) => {
            match (x, y) {
                (Option::Some(d1), Option::Some(d2)) => {
                    if dims_compat(d1, d2) || dims_compat(d2, d1) {
                        assert forall|i: int| 0 <= i < d1.len()
                            implies flat_meet(#[trigger] d1[i], d2[i]) is Some
                                <==> flat_meet(#[trigger] d2[i], d1[i]) is Some by {}
                        if dims_compat(d1, d2) {
                            assert(dims_compat(d2, d1));
                            assert(dims_meet(d1, d2) =~= dims_meet(d2, d1));
                        }
                    }
                },
                _ => {},
            }
        },
        _ => {},
    }
}

/// Unification lifted to "contradiction so far": the meet of two
/// possibly already contradictory results.
pub open spec fn opt_meet(a: Option<FactV>, b: Option<FactV>) -> Option<FactV> {
    match (a, b) {
        (Option::Some(x), Option::Some(y)) => fact_meet(x, y),
        _ => None,
    }
}

/// Unification is associative: unifying three facts gives the same
/// result (or the same failure) whichever pair is unified first.
pub proof fn lemma_fact_meet_assoc(a: FactV, b: FactV, c: FactV)
    ensures
        opt_meet(fact_meet(a, b), Some(c)) == opt_meet(Some(a), fact_meet(b, c)),
{
    let lhs = opt_meet(fact_meet(a, b), Some(c));
    let rhs = opt_meet(Some(a), fact_meet(b, c));
    if lhs is Some {
        let ab = fact_meet(a, b)->Some_0;
        let m = lhs->Some_0;
        lemma_fact_meet_lower(a, b);
        lemma_fact_meet_lower(ab, c);
        lemma_fact_leq_trans(m, ab, a);
        lemma_fact_leq_trans(m, ab, b);
        lemma_fact_meet_glb(m, b, c);
        let bc = fact_meet(b, c)->Some_0;
        lemma_fact_meet_glb(m, a, bc);
        let r = rhs->Some_0;
        lemma_fact_meet_lower(a, bc);
        lemma_fact_meet_lower(b, c);
        lemma_fact_leq_trans(r, bc, b);
        lemma_fact_leq_trans(r, bc, c);
        lemma_fact_meet_glb(r, a, b);
        lemma_fact_meet_glb(r, ab, c);
        lemma_fact_leq_antisym(m, r);
    } else {
        if rhs is Some {
            let r = rhs->Some_0;
            let bc = fact_meet(b, c)->Some_0;
            lemma_fact_meet_lower(a, bc);
            lemma_fact_meet_lower(b, c);
            lemma_fact_leq_trans(r, bc, b);
            lemma_fact_leq_trans(r, bc, c);
            lemma_fact_meet_glb(r, a, b);
            let ab = fact_meet(a, b)->Some_0;
            lemma_fact_meet_lower(a, b);
            lemma_fact_meet_glb(r, ab, c);
        }
    }
}

/// Whether a fact pins its property down completely: nothing about it
/// is left unknown.
pub open spec fn fact_concrete(f: FactV) -> bool {
    match f {
        FactV::Int(x) => x is Some,
        FactV::Typ(x) => x is Some,
        FactV::Dim(x) => x is Some,
        FactV::Value(x) => x is Some,
        FactV::Shape(x) => x is Some && forall|i: int| 0 <= i < x->Some_0.len()
            ==> (#[trigger] x->Some_0[i]) is Some,
    }
}

impl IntFact {
    /// Whether the integer is fully determined.
    pub fn is_concrete(&self) -> (r: bool)
        ensures
            r == fact_concrete(FactV::Int(self@)),
    {
        matches!(self, IntFact::Only(_))
    }
}

impl TypeFact {
    /// Whether the element type is fully determined.
    pub fn is_concrete(&self) -> (r: bool)
        ensures
            r == fact_concrete(FactV::Typ(self@)),
    {
        matches!(self, TypeFact::Only(_))
    }
}

impl DimFact {
    /// Whether the dimension is fully determined.
    pub fn is_concrete(&self) -> (r: bool)
        ensures
            r == fact_concrete(FactV::Dim(self@)),
    {
        matches!(self, DimFact::Only(_))
    }
}

impl ValueFact {
    /// Whether the contents are fully determined.
    pub fn is_concrete(&self) -> (r: bool)
        ensures
            r == fact_concrete(FactV::Value(self@)),
    {
        matches!(self, ValueFact::Only(_))
    }
}

impl ShapeFact {
    /// Whether the rank and every dimension are fully determined.
    pub fn is_concrete(&self) -> (r: bool)
        ensures
            r == fact_concrete(FactV::Shape(self@)),
    {
        match self {
            ShapeFact::Any => false,
            ShapeFact::Dims(dims) => {
                let mut i: usize = 0;
                while i < dims.len()
                    invariant
                        i <= dims@.len(),
                        self@ == Some(dim_seq(dims@)),
                        forall|k: int| 0 <= k < i ==> (#[trigger] dim_seq(dims@)[k]) is Some,
                    decreases dims@.len() - i,
                {
                    match dims[i] {
                        DimFact::Any => {
                            proof {
                                assert(self@ == Some(dim_seq(dims@)));
                                assert(dim_seq(dims@)[i as int] == dims@[i as int]@);
                                assert(dim_seq(dims@)[i as int] is None);
                            }
                            return false;
                        },
                        DimFact::Only(_) => {},
                    }
                    proof {
                        assert(dim_seq(dims@)[i as int] == dims@[i as int]@);
                    }
                    i = i + 1;
                }
                proof {
                    assert(self@ == Some(dim_seq(dims@)));
                }
                true
            },
        }
    }
}

impl Fact {
    /// Whether the fact pins its property down completely.
    pub fn is_concrete(&self) -> (r: bool)
        ensures
            r == fact_concrete(self@),
    {
        match self {
            Fact::Int(f) => f.is_concrete(),
            Fact::Typ(f) => f.is_concrete(),
            Fact::Dim(f) => f.is_concrete(),
            Fact::Shape(f) => f.is_concrete(),
            Fact::Value(f) => f.is_concrete(),
        }
    }
}

/// Raised when two facts unified at one address assert incompatible
/// concrete information.
#[derive(Clone, Copy, PartialEq, Eq, Structural, Debug)]
pub struct Contradiction;

impl ShapeFact {
    /// A copy with the same mathematical value.
    pub fn duplicate(&self) -> (r: ShapeFact)
        ensures
            r@ == self@,
    {
        match self {
            ShapeFact::Any => ShapeFact::Any,
            ShapeFact::Dims(dims) => {
                let mut out: Vec<DimFact> = Vec::new();
                let mut i: usize = 0;
                while i < dims.len()
                    invariant
                        i <= dims@.len(),
                        out@ == dims@.subrange(0, i as int),
                    decreases dims@.len() - i,
                {
                    out.push(dims[i]);
                    i = i + 1;
                }
                proof {
                    assert(out@ =~= dims@);
                }
                ShapeFact::Dims(out)
            },
        }
    }
}

impl ValueFact {
    /// A copy with the same mathematical value.
    pub fn duplicate(&self) -> (r: ValueFact)
        ensures
            r@ == self@,
    {
        match self {
            ValueFact::Any => ValueFact::Any,
            ValueFact::Only(v) => {
                let mut out: Vec<i64> = Vec::new();
                let mut i: usize = 0;
                while i < v.len()
                    invariant
                        i <= v@.len(),
                        out@ == v@.subrange(0, i as int),
                    decreases v@.len() - i,
                {
                    out.push(v[i]);
                    i = i + 1;
                }
                proof {
                    assert(out@ =~= v@);
                }
                ValueFact::Only(out)
            },
        }
    }
}

impl Fact {
    /// A copy with the same mathematical value.
    pub fn duplicate(&self) -> (r: Fact)
        ensures
            r@ == self@,
    {
        match self {
            Fact::Int(f) => Fact::Int(*f),
            Fact::Typ(f) => Fact::Typ(*f),
            Fact::Dim(f) => Fact::Dim(*f),
            Fact::Shape(f) => Fact::Shape(f.duplicate()),
            Fact::Value(f) => Fact::Value(f.duplicate()),
        }
    }
}

fn dims_eq(a: &Vec<DimFact>, b: &Vec<DimFact>) -> (r: bool)
    ensures
        r == (dim_seq(a@) == dim_seq(b@)),
{
    if a.len() != b.len() {
        proof {
            assert(dim_seq(a@).len() != dim_seq(b@).len());
        }
        return false;
    }
    let mut i: usize = 0;
    while i < a.len()
        invariant
            i <= a@.len(),
            a@.len() == b@.len(),
            forall|j: int| 0 <= j < i ==> a@[j] == b@[j],
        decreases a@.len() - i,
    {
        if a[i] != b[i] {
            proof {
                assert(dim_seq(a@)[i as int] == a@[i as int]@);
                assert(dim_seq(b@)[i as int] == b@[i as int]@);
            }
            return false;
        }
        i = i + 1;
    }
    proof {
        assert(a@ =~= b@);
    }
    true
}

fn i64s_eq(a: &Vec<i64>, b: &Vec<i64>) -> (r: bool)
    ensures
        r == (value_seq(a@) == value_seq(b@)),
{
    if a.len() != b.len() {
        proof {
            assert(value_seq(a@).len() != value_seq(b@).len());
        }
        return false;
    }
    let mut i: usize = 0;
    while i < a.len()
        invariant
            i <= a@.len(),
            a@.len() == b@.len(),
            forall|j: int| 0 <= j < i ==> a@[j] == b@[j],
        decreases a@.len() - i,
    {
        if a[i] != b[i] {
            proof {
                assert(value_seq(a@)[i as int] == a@[i as int] as int);
                assert(value_seq(b@)[i as int] == b@[i as int] as int);
            }
            return false;
        }
        i = i + 1;
    }
    proof {
        assert(a@ =~= b@);
    }
    true
}

/// Whether two facts carry exactly the same knowledge.
pub fn fact_eq(a: &Fact, b: &Fact) -> (r: bool)
    ensures
        r == (a@ == b@),
{
    match (a, b) {
        (Fact::Int(x), Fact::Int(y)) => *x == *y,
        (Fact::Typ(x), Fact::Typ(y)) => *x == *y,
        (Fact::Dim(x), Fact::Dim(y)) => *x == *y,
        (Fact::Shape(x), Fact::Shape(y)) => match (x, y) {
            (ShapeFact::Any, ShapeFact::Any) => true,
            (ShapeFact::Dims(d1), ShapeFact::Dims(d2)) => dims_eq(d1, d2),
            _ => false,
        },
        (Fact::Value(x), Fact::Value(y)) => match (x, y) {
            (ValueFact::Any, ValueFact::Any) => true,
            (ValueFact::Only(v1), ValueFact::Only(v2)) => i64s_eq(v1, v2),
            _ => false,
        },
        _ => false,
    }
}

fn meet_dims(d1: &Vec<DimFact>, d2: &Vec<DimFact>) -> (r: Result<Vec<DimFact>, Contradiction>)
    ensures
        r is Ok <==> dims_compat(dim_seq(d1@), dim_seq(d2@)),
        r is Ok ==> dim_seq(r->Ok_0@) == dims_meet(dim_seq(d1@), dim_seq(d2@)),
{
    let ghost s1 = dim_seq(d1@);
    let ghost s2 = dim_seq(d2@);
    if d1.len() != d2.len() {
        return Err(Contradiction);
    }
    let mut out: Vec<DimFact> = Vec::new();
    let mut i: usize = 0;
    while i < d1.len()
        invariant
            i <= d1@.len(),
            d1@.len() == d2@.len(),
            s1 == dim_seq(d1@),
            s2 == dim_seq(d2@),
            out@.len() == i,
            forall|j: int| 0 <= j < i ==> flat_meet(#[trigger] s1[j], s2[j]) is Some,
            forall|j: int| 0 <= j < i
                ==> (#[trigger] out@[j])@ == (if s1[j] is None { s2[j] } else { s1[j] }),
        decreases d1@.len() - i,
    {
        let da = d1[i];
        let db = d2[i];
        proof {
            assert(s1[i as int] == d1@[i as int]@);
            assert(s2[i as int] == d2@[i as int]@);
        }
        match (da, db) {
            (DimFact::Any, _) => out.push(db),
            (_, DimFact::Any) => out.push(da),
            (DimFact::Only(u), DimFact::Only(w)) => {
                if u == w {
                    out.push(da);
                } else {
                    return Err(Contradiction);
                }
            },
        }
        i = i + 1;
    }
    proof {
        assert(dims_compat(s1, s2));
        assert(dim_seq(out@) =~= dims_meet(s1, s2));
    }
    Ok(out)
}

/// Unifies two facts into their most precise common refinement, or
/// reports a [`Contradiction`] when they assert incompatible concrete
/// values (a kind mismatch included).
pub fn meet(a: &Fact, b: &Fact) -> (r: Result<Fact, Contradiction>)
    ensures
        r is Ok <==> fact_meet(a@, b@) is Some,
        r is Ok ==> Some(r->Ok_0@) == fact_meet(a@, b@),
{
    match (a, b) {
        (Fact::Int(x), Fact::Int(y)) => match (x, y) {
            (IntFact::Any, _) => Ok(Fact::Int(*y)),
            (_, IntFact::Any) => Ok(Fact::Int(*x)),
            (IntFact::Only(u), IntFact::Only(w)) => if *u == *w {
                Ok(Fact::Int(*x))
            } else {
                Err(Contradiction)
            },
        },
        (Fact::Typ(x), Fact::Typ(y)) => match (x, y) {
            (TypeFact::Any, _) => Ok(Fact::Typ(*y)),
            (_, TypeFact::Any) => Ok(Fact::Typ(*x)),
            (TypeFact::Only(u), TypeFact::Only(w)) => if *u == *w {
                Ok(Fact::Typ(*x))
            } else {
                Err(Contradiction)
            },
        },
        (Fact::Dim(x), Fact::Dim(y)) => match (x, y) {
            (DimFact::Any, _) => Ok(Fact::Dim(*y)),
            (_, DimFact::Any) => Ok(Fact::Dim(*x)),
            (DimFact::Only(u), DimFact::Only(w)) => if *u == *w {
                Ok(Fact::Dim(*x))
            } else {
                Err(Contradiction)
            },
        },
        (Fact::Value(x), Fact::Value(y)) => match (x, y) {
            (ValueFact::Any, _) => Ok(Fact::Value(y.duplicate())),
            (_, ValueFact::Any) => Ok(Fact::Value(x.duplicate())),
            (ValueFact::Only(v1), ValueFact::Only(v2)) => if i64s_eq(v1, v2) {
                Ok(Fact::Value(x.duplicate()))
            } else {
                Err(Contradiction)
            },
        },
        (Fact::Shape(x), Fact::Shape(y)) => match (x, y) {
            (ShapeFact::Any, _) => Ok(Fact::Shape(y.duplicate())),
            (_, ShapeFact::Any) => Ok(Fact::Shape(x.duplicate())),
            (ShapeFact::Dims(d1), ShapeFact::Dims(d2)) => match meet_dims(d1, d2) {
                Ok(out) => Ok(Fact::Shape(ShapeFact::Dims(out))),
                Err(c) => Err(c),
            },
        },
        _ => Err(Contradiction),
    }
}

} // verus!
