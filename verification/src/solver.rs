//! The rule-solving engine: iterated unification to a fixpoint.
//!
//! A [`Context`] holds the current facts of one node's input and output
//! trees, keyed by path. [`solve`] evaluates a rule set over it again
//! and again, unifying facts at the referenced paths and keeping every
//! dimension fact coherent with the shape fact of its container, until
//! a pass makes no progress (fixpoint) or two facts contradict each
//! other. Unification only ever makes facts more precise, so each pass
//! that changes anything strictly lowers a finite measure of what is
//! still unknown at the touched paths; the run provably terminates.

use vstd::prelude::*;

use crate::fact::{
    fact_eq, fact_leq, fact_meet, flat_leq, lemma_fact_leq_antisym, lemma_fact_leq_refl,
    lemma_fact_leq_trans, lemma_fact_meet_glb, lemma_fact_meet_lower, meet, DimFact, Fact,
    FactV, IntFact, ShapeFact,
};
use crate::path::Path;

verus! {

/// One stored fact, under the path it belongs to.
struct Binding {
    path: Path,
    fact: Fact,
}

/// The mathematical contents of a run of bindings: the map from each
/// bound path to the last fact stored under it.
spec fn bind_map(s: Seq<Binding>) -> Map<Seq<isize>, FactV>
    decreases s.len(),
{
    if s.len() == 0 {
        Map::empty()
    } else {
        bind_map(s.drop_last()).insert(s.last().path@, s.last().fact@)
    }
}

/// Whether no two bindings share a path.
spec fn distinct_paths(s: Seq<Binding>) -> bool {
    forall|i: int, j: int| 0 <= i < j < s.len() ==> s[i].path@ != s[j].path@
}

/// Whether some binding carries the path `p`.
spec fn has_path(s: Seq<Binding>, p: Seq<isize>) -> bool {
    exists|i: int| 0 <= i < s.len() && (#[trigger] s[i]).path@ == p
}

proof fn lemma_bind_map_dom(s: Seq<Binding>)
    ensures
        forall|p: Seq<isize>| #[trigger] bind_map(s).dom().contains(p) <==> has_path(s, p),
    decreases s.len(),
{
    if s.len() > 0 {
        lemma_bind_map_dom(s.drop_last());
        assert(bind_map(s) == bind_map(s.drop_last()).insert(s.last().path@, s.last().fact@));
        assert forall|p: Seq<isize>| #[trigger] bind_map(s).dom().contains(p)
            implies has_path(s, p) by {
            if p == s.last().path@ {
                assert(s[s.len() - 1].path@ == p);
            } else {
                assert(bind_map(s.drop_last()).dom().contains(p));
                assert(has_path(s.drop_last(), p));
                let i = choose|i: int|
                    0 <= i < s.drop_last().len() && (#[trigger] s.drop_last()[i]).path@ == p;
                assert(s[i] == s.drop_last()[i]);
                assert(s[i].path@ == p);
            }
        }
        assert forall|p: Seq<isize>| has_path(s, p)
            implies #[trigger] bind_map(s).dom().contains(p) by {
            let i = choose|i: int| 0 <= i < s.len() && (#[trigger] s[i]).path@ == p;
            if i < s.len() - 1 {
                assert(s.drop_last()[i] == s[i]);
                assert(has_path(s.drop_last(), p));
                assert(bind_map(s.drop_last()).dom().contains(p));
            }
        }
    }
}

proof fn lemma_bind_map_at(s: Seq<Binding>, i: int)
    requires
        distinct_paths(s),
        0 <= i < s.len(),
    ensures
        bind_map(s).dom().contains(s[i].path@),
        bind_map(s)[s[i].path@] == s[i].fact@,
    decreases s.len(),
{
    if i == s.len() - 1 {
    } else {
        assert(distinct_paths(s.drop_last()));
        assert(s.drop_last()[i] == s[i]);
        lemma_bind_map_at(s.drop_last(), i);
        assert(s[i].path@ != s.last().path@);
    }
}

proof fn lemma_bind_map_update(s: Seq<Binding>, i: int, w: Binding)
    requires
        distinct_paths(s),
        0 <= i < s.len(),
        w.path@ == s[i].path@,
    ensures
        bind_map(s.update(i, w)) == bind_map(s).insert(s[i].path@, w.fact@),
        distinct_paths(s.update(i, w)),
    decreases s.len(),
{
    if i == s.len() - 1 {
        assert(s.update(i, w).drop_last() =~= s.drop_last());
        assert(s.update(i, w).last() == w);
    } else {
        assert(distinct_paths(s.drop_last()));
        assert(s.drop_last()[i] == s[i]);
        lemma_bind_map_update(s.drop_last(), i, w);
        assert(s.update(i, w).drop_last() =~= s.drop_last().update(i, w));
        assert(s.update(i, w).last() == s.last());
        assert(s[i].path@ != s.last().path@);
        assert(bind_map(s.update(i, w)) =~= bind_map(s).insert(s[i].path@, w.fact@));
    }
}

/// The fact trees of one node's inputs and outputs during an analysis:
/// the current fact at every path that carries one. A path that carries
/// none is entirely unknown.
pub struct Context {
    entries: Vec<Binding>,
}

impl View for Context {
    type V = Map<Seq<isize>, FactV>;

    closed spec fn view(&self) -> Map<Seq<isize>, FactV> {
        bind_map(self.entries@)
    }
}

impl Context {
    /// Whether no path is bound twice; established by [`Context::new`]
    /// and preserved by every operation.
    pub closed spec fn wf(&self) -> bool {
        distinct_paths(self.entries@)
    }

    /// An empty context: nothing is known anywhere.
    pub fn new() -> (c: Context)
        ensures
            c@ == Map::<Seq<isize>, FactV>::empty(),
            c.wf(),
    {
        Context { entries: Vec::new() }
    }

    /// The current fact at a path, or `None` where nothing is known.
    pub fn get(&self, path: &Path) -> (r: Option<&Fact>)
        requires
            self.wf(),
        ensures
            match r {
                Some(f) => self@.dom().contains(path@) && f@ == self@[path@],
                None => !self@.dom().contains(path@),
            },
    {
        let mut i: usize = 0;
        while i < self.entries.len()
            invariant
                i <= self.entries@.len(),
                self.wf(),
                forall|j: int| 0 <= j < i ==> (#[trigger] self.entries@[j]).path@ != path@,
            decreases self.entries@.len() - i,
        {
            if self.entries[i].path.eq(path) {
                proof {
                    lemma_bind_map_at(self.entries@, i as int);
                }
                return Some(&self.entries[i].fact);
            }
            i = i + 1;
        }
        proof {
            lemma_bind_map_dom(self.entries@);
        }
        None
    }

    /// Binds a fact at a path, replacing whatever was known there.
    pub fn set(&mut self, path: &Path, fact: Fact)
        requires
            old(self).wf(),
        ensures
            final(self)@ == old(self)@.insert(path@, fact@),
            final(self).wf(),
    {
        let mut i: usize = 0;
        let n: usize = self.entries.len();
        while i < n
            invariant
                i <= self.entries@.len(),
                n == self.entries@.len(),
                self == old(self),
                old(self).wf(),
                forall|j: int| 0 <= j < i ==> (#[trigger] self.entries@[j]).path@ != path@,
            decreases n - i,
        {
            if self.entries[i].path.eq(path) {
                let b = Binding { path: path.duplicate(), fact };
                proof {
                    lemma_bind_map_update(self.entries@, i as int, b);
                }
                self.entries[i] = b;
                return;
            }
            i = i + 1;
        }
        proof {
            lemma_bind_map_dom(self.entries@);
        }
        self.entries.push(Binding { path: path.duplicate(), fact });
        proof {
            assert(self.entries@.drop_last() =~= old(self).entries@);
        }
    }
}

/// One relationship a rule set asserts: two addressed properties are
/// equal, an addressed property equals a literal fact, or a computed
/// transformation holds: the integer fact at the first path is the
/// rank of the shape fact at the second.
pub enum Rule {
    Equals(Path, Path),
    Given(Path, Fact),
    RankOf(Path, Path),
}

/// The mathematical value of a rule.
pub ghost enum RuleV {
    Equals(Seq<isize>, Seq<isize>),
    Given(Seq<isize>, FactV),
    RankOf(Seq<isize>, Seq<isize>),
}

impl View for Rule {
    type V = RuleV;

    open spec fn view(&self) -> RuleV {
        match *self {
            Rule::Equals(ref p, ref q) => RuleV::Equals(p@, q@),
            Rule::Given(ref p, ref f) => RuleV::Given(p@, f@),
            Rule::RankOf(ref p, ref q) => RuleV::RankOf(p@, q@),
        }
    }
}

/// The mathematical value of a rule set.
pub open spec fn rules_view(rs: Seq<Rule>) -> Seq<RuleV> {
    rs.map(|i: int, r: Rule| r@)
}

/// The knowledge at a path: `None` where the state binds nothing.
pub open spec fn lookup(m: Map<Seq<isize>, FactV>, p: Seq<isize>) -> Option<FactV> {
    if m.dom().contains(p) {
        Some(m[p])
    } else {
        None
    }
}

/// Refinement between the knowledge at one path of two states.
pub open spec fn opt_leq(a: Option<FactV>, b: Option<FactV>) -> bool {
    match b {
        Option::None => true,
        Option::Some(bf) => match a {
            Option::Some(af) => fact_leq(af, bf),
            Option::None => false,
        },
    }
}

/// State `g` refines state `m`: everywhere, `g` knows at least as much.
pub open spec fn refines(g: Map<Seq<isize>, FactV>, m: Map<Seq<isize>, FactV>) -> bool {
    forall|p: Seq<isize>| opt_leq(#[trigger] lookup(g, p), lookup(m, p))
}

/// A rule that can refine nothing further in `m` is satisfied there.
pub open spec fn satisfied(r: RuleV, m: Map<Seq<isize>, FactV>) -> bool {
    match r {
        RuleV::Equals(p, q) => lookup(m, p) == lookup(m, q),
        RuleV::Given(p, f) => opt_leq(lookup(m, p), Some(f)),
        RuleV::RankOf(p, q) => match shape_dims_at(m, q) {
            Option::Some(d) => d.len() <= i64::MAX
                && lookup(m, p) == Some(FactV::Int(Some(d.len() as int))),
            Option::None => true,
        },
    }
}

/// Every rule of the set is satisfied in `m`: `m` is a fixpoint.
pub open spec fn satisfied_all(rs: Seq<RuleV>, m: Map<Seq<isize>, FactV>) -> bool {
    forall|i: int| 0 <= i < rs.len() ==> satisfied(#[trigger] rs[i], m)
}

/// The paths a rule reads and refines.
pub open spec fn rule_mentions(r: RuleV, p: Seq<isize>) -> bool {
    match r {
        RuleV::Equals(a, b) => p == a || p == b,
        RuleV::Given(a, _) => p == a,
        RuleV::RankOf(a, b) => p == a || p == b,
    }
}

/// How many dimensions of a known-rank shape are still undetermined.
spec fn count_unknown_dims(d: Seq<Option<nat>>) -> nat
    decreases d.len(),
{
    if d.len() == 0 {
        0
    } else {
        count_unknown_dims(d.drop_last()) + (if d.last() is None {
            1nat
        } else {
            0nat
        })
    }
}

/// Coarse unknown-ness of the knowledge at one path: 2 where nothing
/// is bound, 1 for a bound fact whose top-level value is unknown, 0
/// once the top level is determined.
spec fn hi_of(a: Option<FactV>) -> nat {
    match a {
        Option::None => 2,
        Option::Some(f) => match f {
            FactV::Int(x) => if x is None {
                1nat
            } else {
                0nat
            },
            FactV::Typ(x) => if x is None {
                1nat
            } else {
                0nat
            },
            FactV::Dim(x) => if x is None {
                1nat
            } else {
                0nat
            },
            FactV::Value(x) => if x is None {
                1nat
            } else {
                0nat
            },
            FactV::Shape(x) => if x is None {
                1nat
            } else {
                0nat
            },
        },
    }
}

/// Fine unknown-ness of the knowledge at one path: the undetermined
/// dimensions of a known-rank shape.
spec fn lo_of(a: Option<FactV>) -> nat {
    match a {
        Option::Some(FactV::Shape(Option::Some(d))) => count_unknown_dims(d),
        _ => 0,
    }
}

/// The coarse unknown-ness summed over the paths a rule mentions.
spec fn hi_rule(r: RuleV, m: Map<Seq<isize>, FactV>) -> nat {
    match r {
        RuleV::Equals(p, q) => hi_of(lookup(m, p)) + hi_of(lookup(m, q)),
        RuleV::Given(p, _) => hi_of(lookup(m, p)),
        RuleV::RankOf(p, q) => hi_of(lookup(m, p)) + hi_of(lookup(m, q)),
    }
}

/// The fine unknown-ness summed over the paths a rule mentions.
spec fn lo_rule(r: RuleV, m: Map<Seq<isize>, FactV>) -> nat {
    match r {
        RuleV::Equals(p, q) => lo_of(lookup(m, p)) + lo_of(lookup(m, q)),
        RuleV::Given(p, _) => lo_of(lookup(m, p)),
        RuleV::RankOf(p, q) => lo_of(lookup(m, p)) + lo_of(lookup(m, q)),
    }
}

/// The coarse unknown-ness summed over a rule set: the solver's
/// primary termination measure.
spec fn hi_rules(rs: Seq<RuleV>, m: Map<Seq<isize>, FactV>) -> nat
    decreases rs.len(),
{
    if rs.len() == 0 {
        0
    } else {
        hi_rules(rs.drop_last(), m) + hi_rule(rs.last(), m)
    }
}

/// The fine unknown-ness summed over a rule set: the solver's
/// secondary termination measure.
spec fn lo_rules(rs: Seq<RuleV>, m: Map<Seq<isize>, FactV>) -> nat
    decreases rs.len(),
{
    if rs.len() == 0 {
        0
    } else {
        lo_rules(rs.drop_last(), m) + lo_rule(rs.last(), m)
    }
}

proof fn lemma_count_unknown_le(d2: Seq<Option<nat>>, d1: Seq<Option<nat>>)
    requires
        d2.len() == d1.len(),
        forall|i: int| 0 <= i < d1.len() ==> flat_leq(#[trigger] d2[i], d1[i]),
    ensures
        count_unknown_dims(d2) <= count_unknown_dims(d1),
    decreases d1.len(),
{
    if d1.len() > 0 {
        assert(forall|i: int| 0 <= i < d1.drop_last().len()
            ==> flat_leq(#[trigger] d2.drop_last()[i], d1.drop_last()[i]));
        lemma_count_unknown_le(d2.drop_last(), d1.drop_last());
        assert(flat_leq(d2[d1.len() - 1], d1[d1.len() - 1]));
    }
}

proof fn lemma_count_unknown_lt(d2: Seq<Option<nat>>, d1: Seq<Option<nat>>, k: int)
    requires
        d2.len() == d1.len(),
        forall|i: int| 0 <= i < d1.len() ==> flat_leq(#[trigger] d2[i], d1[i]),
        0 <= k < d1.len(),
        d1[k] is None,
        d2[k] is Some,
    ensures
        count_unknown_dims(d2) < count_unknown_dims(d1),
    decreases d1.len(),
{
    assert(forall|i: int| 0 <= i < d1.drop_last().len()
        ==> flat_leq(#[trigger] d2.drop_last()[i], d1.drop_last()[i]));
    if k == d1.len() - 1 {
        lemma_count_unknown_le(d2.drop_last(), d1.drop_last());
    } else {
        lemma_count_unknown_lt(d2.drop_last(), d1.drop_last(), k);
        assert(flat_leq(d2[d1.len() - 1], d1[d1.len() - 1]));
    }
}

/// Refining the knowledge at a path never raises its unknown-ness.
proof fn lemma_pot_weak(a: Option<FactV>, b: Option<FactV>)
    requires
        opt_leq(b, a),
    ensures
        hi_of(b) <= hi_of(a),
        hi_of(b) == hi_of(a) ==> lo_of(b) <= lo_of(a),
{
    match (a, b) {
        (Option::Some(FactV::Shape(Option::Some(d1))), Option::Some(FactV::Shape(Option::Some(d2)))) => {
            lemma_count_unknown_le(d2, d1);
        },
        _ => {},
    }
}

/// Strictly refining the knowledge at a path strictly lowers its
/// unknown-ness, coarse first.
proof fn lemma_pot_strict(a: Option<FactV>, b: Option<FactV>)
    requires
        opt_leq(b, a),
        b != a,
    ensures
        hi_of(b) < hi_of(a) || (hi_of(b) == hi_of(a) && lo_of(b) < lo_of(a)),
{
    match (a, b) {
        (Option::Some(FactV::Shape(Option::Some(d1))), Option::Some(FactV::Shape(Option::Some(d2)))) => {
            assert(exists|k: int| 0 <= k < d1.len() && #[trigger] d2[k] != d1[k]) by {
                if forall|k: int| 0 <= k < d1.len() ==> #[trigger] d2[k] == d1[k] {
                    assert(d2 =~= d1);
                }
            }
            let k = choose|k: int| 0 <= k < d1.len() && #[trigger] d2[k] != d1[k];
            assert(flat_leq(d2[k], d1[k]));
            lemma_count_unknown_lt(d2, d1, k);
        },
        _ => {},
    }
}

/// Refining a state never raises a rule set's unknown-ness.
proof fn lemma_sums_weak(rs: Seq<RuleV>, m1: Map<Seq<isize>, FactV>, m2: Map<Seq<isize>, FactV>)
    requires
        refines(m2, m1),
    ensures
        hi_rules(rs, m2) <= hi_rules(rs, m1),
        hi_rules(rs, m2) == hi_rules(rs, m1) ==> lo_rules(rs, m2) <= lo_rules(rs, m1),
    decreases rs.len(),
{
    if rs.len() > 0 {
        lemma_sums_weak(rs.drop_last(), m1, m2);
        match rs.last() {
            RuleV::Equals(p, q) => {
                lemma_pot_weak(lookup(m1, p), lookup(m2, p));
                lemma_pot_weak(lookup(m1, q), lookup(m2, q));
            },
            RuleV::Given(p, _) => {
                lemma_pot_weak(lookup(m1, p), lookup(m2, p));
            },
            RuleV::RankOf(p, q) => {
                lemma_pot_weak(lookup(m1, p), lookup(m2, p));
                lemma_pot_weak(lookup(m1, q), lookup(m2, q));
            },
        }
    }
}

/// A strict refinement at a path some rule mentions strictly lowers
/// the rule set's unknown-ness, coarse first.
proof fn lemma_sums_strict(
    rs: Seq<RuleV>,
    m1: Map<Seq<isize>, FactV>,
    m2: Map<Seq<isize>, FactV>,
    i: int,
    pc: Seq<isize>,
)
    requires
        refines(m2, m1),
        0 <= i < rs.len(),
        rule_mentions(rs[i], pc),
        lookup(m2, pc) != lookup(m1, pc),
    ensures
        hi_rules(rs, m2) < hi_rules(rs, m1)
            || (hi_rules(rs, m2) == hi_rules(rs, m1) && lo_rules(rs, m2) < lo_rules(rs, m1)),
    decreases rs.len(),
{
    assert(opt_leq(lookup(m2, pc), lookup(m1, pc)));
    lemma_pot_strict(lookup(m1, pc), lookup(m2, pc));
    if i == rs.len() - 1 {
        lemma_sums_weak(rs.drop_last(), m1, m2);
        match rs.last() {
            RuleV::Equals(p, q) => {
                lemma_pot_weak(lookup(m1, p), lookup(m2, p));
                lemma_pot_weak(lookup(m1, q), lookup(m2, q));
            },
            RuleV::Given(p, _) => {
                lemma_pot_weak(lookup(m1, p), lookup(m2, p));
            },
            RuleV::RankOf(p, q) => {
                lemma_pot_weak(lookup(m1, p), lookup(m2, p));
                lemma_pot_weak(lookup(m1, q), lookup(m2, q));
            },
        }
    } else {
        assert(rs.drop_last()[i] == rs[i]);
        lemma_sums_strict(rs.drop_last(), m1, m2, i, pc);
        match rs.last() {
            RuleV::Equals(p, q) => {
                lemma_pot_weak(lookup(m1, p), lookup(m2, p));
                lemma_pot_weak(lookup(m1, q), lookup(m2, q));
            },
            RuleV::Given(p, _) => {
                lemma_pot_weak(lookup(m1, p), lookup(m2, p));
            },
            RuleV::RankOf(p, q) => {
                lemma_pot_weak(lookup(m1, p), lookup(m2, p));
                lemma_pot_weak(lookup(m1, q), lookup(m2, q));
            },
        }
    }
}

/// The dimensions of a known-rank shape fact bound at a path.
pub open spec fn shape_dims_at(m: Map<Seq<isize>, FactV>, p: Seq<isize>) -> Option<
    Seq<Option<nat>>,
> {
    match lookup(m, p) {
        Option::Some(FactV::Shape(s)) => s,
        _ => Option::None,
    }
}

/// The dimension fact bound at a path, if one is bound there.
pub open spec fn dim_at(m: Map<Seq<isize>, FactV>, p: Seq<isize>) -> Option<Option<nat>> {
    match lookup(m, p) {
        Option::Some(FactV::Dim(x)) => Option::Some(x),
        _ => Option::None,
    }
}

/// Prefix coherence: wherever a known-rank shape fact and a dimension
/// fact for one of its components are both bound, the component index
/// lies within the rank and the two agree exactly.
pub open spec fn coherent(m: Map<Seq<isize>, FactV>) -> bool {
    forall|p: Seq<isize>, c: isize|
        #[trigger] dim_at(m, p.push(c)) is Some && shape_dims_at(m, p) is Some
            ==> 0 <= c < shape_dims_at(m, p)->Some_0.len()
                && shape_dims_at(m, p)->Some_0[c as int] == dim_at(m, p.push(c))->Some_0
}

/// Whether some rule of the set mentions the path.
pub open spec fn mentioned_any(rs: Seq<RuleV>, p: Seq<isize>) -> bool {
    exists|i: int| 0 <= i < rs.len() && rule_mentions(#[trigger] rs[i], p)
}

/// The coarse unknown-ness summed over a run of paths: the part of the
/// termination measure that covers the paths bound before the run.
spec fn hi_paths(ps: Seq<Seq<isize>>, m: Map<Seq<isize>, FactV>) -> nat
    decreases ps.len(),
{
    if ps.len() == 0 {
        0
    } else {
        hi_paths(ps.drop_last(), m) + hi_of(lookup(m, ps.last()))
    }
}

/// The fine unknown-ness summed over a run of paths.
spec fn lo_paths(ps: Seq<Seq<isize>>, m: Map<Seq<isize>, FactV>) -> nat
    decreases ps.len(),
{
    if ps.len() == 0 {
        0
    } else {
        lo_paths(ps.drop_last(), m) + lo_of(lookup(m, ps.last()))
    }
}

/// Refining a state never raises a path run's unknown-ness.
proof fn lemma_paths_weak(
    ps: Seq<Seq<isize>>,
    m1: Map<Seq<isize>, FactV>,
    m2: Map<Seq<isize>, FactV>,
)
    requires
        refines(m2, m1),
    ensures
        hi_paths(ps, m2) <= hi_paths(ps, m1),
        hi_paths(ps, m2) == hi_paths(ps, m1) ==> lo_paths(ps, m2) <= lo_paths(ps, m1),
    decreases ps.len(),
{
    if ps.len() > 0 {
        lemma_paths_weak(ps.drop_last(), m1, m2);
        lemma_pot_weak(lookup(m1, ps.last()), lookup(m2, ps.last()));
    }
}

/// A strict refinement at one of the run's paths strictly lowers the
/// run's unknown-ness, coarse first.
proof fn lemma_paths_strict(
    ps: Seq<Seq<isize>>,
    m1: Map<Seq<isize>, FactV>,
    m2: Map<Seq<isize>, FactV>,
    j: int,
    pc: Seq<isize>,
)
    requires
        refines(m2, m1),
        0 <= j < ps.len(),
        ps[j] == pc,
        lookup(m2, pc) != lookup(m1, pc),
    ensures
        hi_paths(ps, m2) < hi_paths(ps, m1)
            || (hi_paths(ps, m2) == hi_paths(ps, m1) && lo_paths(ps, m2) < lo_paths(ps, m1)),
    decreases ps.len(),
{
    assert(opt_leq(lookup(m2, pc), lookup(m1, pc)));
    lemma_pot_strict(lookup(m1, pc), lookup(m2, pc));
    if j == ps.len() - 1 {
        lemma_paths_weak(ps.drop_last(), m1, m2);
    } else {
        assert(ps.drop_last()[j] == ps[j]);
        lemma_paths_strict(ps.drop_last(), m1, m2, j, pc);
        lemma_pot_weak(lookup(m1, ps.last()), lookup(m2, ps.last()));
    }
}

/// Inserting a refinement of a bound fact refines the state.
proof fn lemma_refines_insert(
    pre: Map<Seq<isize>, FactV>,
    p: Seq<isize>,
    f1: FactV,
    f2: FactV,
)
    requires
        lookup(pre, p) == Some(f1),
        fact_leq(f2, f1),
    ensures
        refines(pre.insert(p, f2), pre),
{
    let post = pre.insert(p, f2);
    assert forall|r: Seq<isize>| opt_leq(#[trigger] lookup(post, r), lookup(pre, r)) by {
        if r != p {
            match lookup(pre, r) {
                Option::Some(f) => lemma_fact_leq_refl(f),
                Option::None => {},
            }
        }
    }
}

/// Refinement between states is reflexive.
pub proof fn lemma_refines_refl(m: Map<Seq<isize>, FactV>)
    ensures
        refines(m, m),
{
    assert forall|p: Seq<isize>| opt_leq(#[trigger] lookup(m, p), lookup(m, p)) by {
        match lookup(m, p) {
            Option::Some(f) => lemma_fact_leq_refl(f),
            Option::None => {},
        }
    }
}

/// Refinement between states is transitive.
pub proof fn lemma_refines_trans(
    a: Map<Seq<isize>, FactV>,
    b: Map<Seq<isize>, FactV>,
    c: Map<Seq<isize>, FactV>,
)
    requires
        refines(a, b),
        refines(b, c),
    ensures
        refines(a, c),
{
    assert forall|p: Seq<isize>| opt_leq(#[trigger] lookup(a, p), lookup(c, p)) by {
        assert(opt_leq(lookup(a, p), lookup(b, p)));
        assert(opt_leq(lookup(b, p), lookup(c, p)));
        match lookup(c, p) {
            Option::Some(cf) => {
                let bf = lookup(b, p)->Some_0;
                let af = lookup(a, p)->Some_0;
                lemma_fact_leq_trans(af, bf, cf);
            },
            Option::None => {},
        }
    }
}

/// Refinement between states is antisymmetric: two states that refine
/// each other are the same state.
pub proof fn lemma_refines_antisym(a: Map<Seq<isize>, FactV>, b: Map<Seq<isize>, FactV>)
    requires
        refines(a, b),
        refines(b, a),
    ensures
        a == b,
{
    assert forall|p: Seq<isize>| #[trigger] lookup(a, p) == lookup(b, p) by {
        assert(opt_leq(lookup(a, p), lookup(b, p)));
        assert(opt_leq(lookup(b, p), lookup(a, p)));
        match (lookup(a, p), lookup(b, p)) {
            (Option::Some(af), Option::Some(bf)) => {
                lemma_fact_leq_antisym(af, bf);
            },
            _ => {},
        }
    }
    assert forall|p: Seq<isize>| a.dom().contains(p) implies b.dom().contains(p) by {
        assert(lookup(a, p) == lookup(b, p));
    }
    assert forall|p: Seq<isize>| b.dom().contains(p) implies a.dom().contains(p) by {
        assert(lookup(a, p) == lookup(b, p));
    }
    assert forall|p: Seq<isize>| a.dom().contains(p) implies a[p] == b[p] by {
        assert(lookup(a, p) == lookup(b, p));
    }
    assert(a =~= b);
}

/// The failure a solve reports.
pub enum SolverError {
    /// Two facts unified at one path by a rule assert incompatible
    /// concrete information: the position of the offending rule in
    /// the rule set, and the path at which unification failed.
    Contradiction { rule: usize, path: Path },
    /// A dimension fact and the shape fact of its container assert
    /// incompatible concrete information: the path of the offending
    /// component.
    Incoherent { path: Path },
}

/// Any refinement of a state with a known-rank shape bound at a path
/// has a known-rank shape of the same rank bound there.
proof fn lemma_rank_source(
    g: Map<Seq<isize>, FactV>,
    q: Seq<isize>,
    m: Map<Seq<isize>, FactV>,
    d: Seq<Option<nat>>,
)
    requires
        refines(g, m),
        lookup(m, q) == Some(FactV::Shape(Some(d))),
    ensures
        shape_dims_at(g, q) is Some,
        shape_dims_at(g, q)->Some_0.len() == d.len(),
{
    assert(opt_leq(lookup(g, q), lookup(m, q)));
    let gf = lookup(g, q)->Some_0;
    assert(fact_leq(gf, FactV::Shape(Some(d))));
    match gf {
        FactV::Shape(x) => {
            assert(x is Some);
            assert(crate::fact::dims_leq(x->Some_0, d));
        },
        _ => {
            assert(false);
        },
    }
}

/// Evaluates one rule against the context, unifying the facts at the
/// paths it references. `Ok(false)` reports that nothing changed and
/// the rule is satisfied; `Ok(true)` reports a refinement; an error
/// reports that no refinement of the incoming state can satisfy the
/// rule, and leaves the context exactly as it was.
fn apply_rule(ctx: &mut Context, rule: &Rule) -> (r: Result<bool, Path>)
    requires
        old(ctx).wf(),
    ensures
        final(ctx).wf(),
        refines(final(ctx)@, old(ctx)@),
        match r {
            Ok(changed) => {
                &&& (!changed ==> final(ctx)@ == old(ctx)@ && satisfied(rule@, final(ctx)@))
                &&& (changed ==> exists|pc: Seq<isize>| rule_mentions(rule@, pc)
                    && #[trigger] lookup(final(ctx)@, pc) != lookup(old(ctx)@, pc))
                &&& forall|g: Map<Seq<isize>, FactV>|
                    refines(g, old(ctx)@) && satisfied(rule@, g) ==> refines(g, final(ctx)@)
            },
            Err(pp) => {
                &&& final(ctx)@ == old(ctx)@
                &&& rule_mentions(rule@, pp@)
                &&& forall|g: Map<Seq<isize>, FactV>|
                    refines(g, old(ctx)@) ==> !satisfied(rule@, g)
            },
        },
        forall|pp: Seq<isize>| #[trigger] final(ctx)@.dom().contains(pp)
            ==> old(ctx)@.dom().contains(pp) || rule_mentions(rule@, pp),
{
    match rule {
        Rule::Equals(p, q) => {
            let a = ctx.get(p);
            let b = ctx.get(q);
            match (a, b) {
                (Option::None, Option::None) => {
                    proof {
                        lemma_refines_refl(ctx@);
                    }
                    Ok(false)
                },
                (Option::Some(af), Option::None) => {
                    let d = af.duplicate();
                    ctx.set(q, d);
                    proof {
                        lemma_apply_copy(old(ctx)@, p@, q@, ctx@);
                        assert(rule_mentions(rule@, q@));
                        assert(lookup(ctx@, q@) != lookup(old(ctx)@, q@));
                    }
                    Ok(true)
                },
                (Option::None, Option::Some(bf)) => {
                    let d = bf.duplicate();
                    ctx.set(p, d);
                    proof {
                        lemma_apply_copy(old(ctx)@, q@, p@, ctx@);
                        assert(rule_mentions(rule@, p@));
                        assert(lookup(ctx@, p@) != lookup(old(ctx)@, p@));
                        assert forall|g: Map<Seq<isize>, FactV>|
                            refines(g, old(ctx)@) && satisfied(rule@, g)
                            implies refines(g, ctx@) by {
                            assert(lookup(g, p@) == lookup(g, q@));
                        }
                    }
                    Ok(true)
                },
                (Option::Some(af), Option::Some(bf)) => {
                    match meet(af, bf) {
                        Result::Err(_) => {
                            proof {
                                lemma_refines_refl(ctx@);
                                assert forall|g: Map<Seq<isize>, FactV>|
                                    refines(g, old(ctx)@) implies !satisfied(rule@, g) by {
                                    if satisfied(rule@, g) {
                                        assert(opt_leq(lookup(g, p@), lookup(old(ctx)@, p@)));
                                        assert(opt_leq(lookup(g, q@), lookup(old(ctx)@, q@)));
                                        let x = lookup(g, p@)->Some_0;
                                        lemma_fact_meet_glb(x, af@, bf@);
                                    }
                                }
                            }
                            Err(p.duplicate())
                        },
                        Result::Ok(m) => {
                            let same_p = fact_eq(&m, af);
                            let same_q = fact_eq(&m, bf);
                            if same_p && same_q {
                                proof {
                                    lemma_refines_refl(ctx@);
                                    lemma_equals_bound(old(ctx)@, p@, q@, af@, bf@, m@, ctx@);
                                }
                                Ok(false)
                            } else {
                                let ghost pre = ctx@;
                                if !same_p {
                                    let d = m.duplicate();
                                    ctx.set(p, d);
                                }
                                if !same_q {
                                    ctx.set(q, m);
                                }
                                proof {
                                    lemma_meet_step(pre, p@, q@, af@, bf@, m@, ctx@);
                                    lemma_equals_bound(pre, p@, q@, af@, bf@, m@, ctx@);
                                    if !same_p {
                                        assert(rule_mentions(rule@, p@));
                                        assert(lookup(ctx@, p@) != lookup(old(ctx)@, p@));
                                    } else {
                                        assert(rule_mentions(rule@, q@));
                                        assert(lookup(ctx@, q@) != lookup(old(ctx)@, q@));
                                    }
                                }
                                Ok(true)
                            }
                        },
                    }
                },
            }
        },
        Rule::Given(p, f) => {
            let a = ctx.get(p);
            match a {
                Option::None => {
                    let d = f.duplicate();
                    ctx.set(p, d);
                    proof {
                        lemma_given_fresh(old(ctx)@, p@, f@, ctx@);
                        assert(rule_mentions(rule@, p@));
                        assert(lookup(ctx@, p@) != lookup(old(ctx)@, p@));
                    }
                    Ok(true)
                },
                Option::Some(af) => {
                    match meet(af, f) {
                        Result::Err(_) => {
                            proof {
                                lemma_refines_refl(ctx@);
                                assert forall|g: Map<Seq<isize>, FactV>|
                                    refines(g, old(ctx)@) implies !satisfied(rule@, g) by {
                                    if satisfied(rule@, g) {
                                        assert(opt_leq(lookup(g, p@), lookup(old(ctx)@, p@)));
                                        let x = lookup(g, p@)->Some_0;
                                        lemma_fact_meet_glb(x, af@, f@);
                                    }
                                }
                            }
                            Err(p.duplicate())
                        },
                        Result::Ok(m) => {
                            if fact_eq(&m, af) {
                                proof {
                                    lemma_refines_refl(ctx@);
                                    lemma_fact_meet_lower(af@, f@);
                                }
                                Ok(false)
                            } else {
                                let ghost pre = ctx@;
                                ctx.set(p, m);
                                proof {
                                    lemma_given_step(pre, p@, af@, f@, ctx@);
                                    assert(rule_mentions(rule@, p@));
                                    assert(lookup(ctx@, p@) != lookup(old(ctx)@, p@));
                                }
                                Ok(true)
                            }
                        },
                    }
                },
            }
        },
        Rule::RankOf(p, q) => {
            let shape_len: Option<usize> = match ctx.get(q) {
                Option::Some(f) => match f {
                    Fact::Shape(ShapeFact::Dims(dv)) => {
                        proof {
                            assert(f@ == FactV::Shape(Some(crate::fact::dim_seq(dv@))));
                            assert(shape_dims_at(ctx@, q@) == Some(crate::fact::dim_seq(dv@)));
                            assert(crate::fact::dim_seq(dv@).len() == dv@.len());
                        }
                        Some(dv.len())
                    },
                    _ => {
                        proof {
                            assert(shape_dims_at(ctx@, q@) is None);
                        }
                        None
                    },
                },
                Option::None => {
                    proof {
                        assert(shape_dims_at(ctx@, q@) is None);
                    }
                    None
                },
            };
            match shape_len {
                Option::None => {
                    proof {
                        lemma_refines_refl(ctx@);
                        assert(shape_dims_at(ctx@, q@) is None);
                    }
                    Ok(false)
                },
                Option::Some(n) => {
                    let ghost d = shape_dims_at(old(ctx)@, q@)->Some_0;
                    proof {
                        assert(shape_dims_at(old(ctx)@, q@) is Some);
                        assert(d.len() == n);
                        assert(lookup(old(ctx)@, q@) == Some(FactV::Shape(Some(d))));
                    }
                    if n as u64 > (i64::MAX as u64) {
                        proof {
                            lemma_refines_refl(ctx@);
                            assert forall|g: Map<Seq<isize>, FactV>| refines(g, old(ctx)@)
                                implies !satisfied(rule@, g) by {
                                lemma_rank_source(g, q@, old(ctx)@, d);
                                assert(shape_dims_at(g, q@)->Some_0.len() > i64::MAX);
                            }
                        }
                        return Err(q.duplicate());
                    }
                    let target = Fact::Int(IntFact::Only(n as i64));
                    proof {
                        assert(target@ == FactV::Int(Some(n as int)));
                    }
                    let a = ctx.get(p);
                    match a {
                        Option::None => {
                            ctx.set(p, target);
                            proof {
                                lemma_given_fresh(old(ctx)@, p@, FactV::Int(Some(n as int)), ctx@);
                                assert(rule_mentions(rule@, p@));
                                assert(lookup(ctx@, p@) != lookup(old(ctx)@, p@));
                                assert forall|g: Map<Seq<isize>, FactV>|
                                    refines(g, old(ctx)@) && satisfied(rule@, g)
                                    implies refines(g, ctx@) by {
                                    lemma_rank_source(g, q@, old(ctx)@, d);
                                    assert(opt_leq(lookup(g, p@), Some(FactV::Int(Some(n as int)))));
                                }
                            }
                            Ok(true)
                        },
                        Option::Some(af) => {
                            if fact_eq(af, &target) {
                                proof {
                                    lemma_refines_refl(ctx@);
                                    assert(satisfied(rule@, ctx@));
                                }
                                Ok(false)
                            } else {
                                match meet(af, &target) {
                                    Result::Err(_) => {
                                        proof {
                                            lemma_refines_refl(ctx@);
                                            assert forall|g: Map<Seq<isize>, FactV>|
                                                refines(g, old(ctx)@)
                                                implies !satisfied(rule@, g) by {
                                                lemma_rank_source(g, q@, old(ctx)@, d);
                                                assert(opt_leq(lookup(g, p@), lookup(old(ctx)@, p@)));
                                                if satisfied(rule@, g) {
                                                    let x = lookup(g, p@)->Some_0;
                                                    lemma_fact_meet_glb(
                                                        x,
                                                        af@,
                                                        FactV::Int(Some(n as int)),
                                                    );
                                                }
                                            }
                                        }
                                        Err(p.duplicate())
                                    },
                                    Result::Ok(m) => {
                                        let ghost pre = ctx@;
                                        let ghost mv = m@;
                                        ctx.set(p, m);
                                        proof {
                                            lemma_given_step(
                                                pre,
                                                p@,
                                                af@,
                                                FactV::Int(Some(n as int)),
                                                ctx@,
                                            );
                                            assert(rule_mentions(rule@, p@));
                                            assert(mv != af@);
                                            assert(lookup(ctx@, p@) != lookup(old(ctx)@, p@));
                                            assert forall|g: Map<Seq<isize>, FactV>|
                                                refines(g, old(ctx)@) && satisfied(rule@, g)
                                                implies refines(g, ctx@) by {
                                                lemma_rank_source(g, q@, pre, d);
                                                assert(opt_leq(
                                                    lookup(g, p@),
                                                    Some(FactV::Int(Some(n as int))),
                                                ));
                                            }
                                        }
                                        Ok(true)
                                    },
                                }
                            }
                        },
                    }
                },
            }
        },
    }
}

/// Copying the known fact of one side of an equality onto the other,
/// unknown, side refines the state and keeps every satisfying
/// refinement below it.
proof fn lemma_apply_copy(
    pre: Map<Seq<isize>, FactV>,
    src: Seq<isize>,
    dst: Seq<isize>,
    post: Map<Seq<isize>, FactV>,
)
    requires
        pre.dom().contains(src),
        !pre.dom().contains(dst),
        post == pre.insert(dst, pre[src]),
    ensures
        refines(post, pre),
        forall|g: Map<Seq<isize>, FactV>|
            refines(g, pre) && lookup(g, src) == lookup(g, dst) ==> refines(g, post),
{
    assert forall|p: Seq<isize>| opt_leq(#[trigger] lookup(post, p), lookup(pre, p)) by {
        if p != dst {
            match lookup(pre, p) {
                Option::Some(f) => lemma_fact_leq_refl(f),
                Option::None => {},
            }
        }
    }
    assert forall|g: Map<Seq<isize>, FactV>|
        refines(g, pre) && lookup(g, src) == lookup(g, dst) implies refines(g, post) by {
        assert forall|p: Seq<isize>| opt_leq(#[trigger] lookup(g, p), lookup(post, p)) by {
            if p == dst {
                assert(opt_leq(lookup(g, src), lookup(pre, src)));
                assert(lookup(post, dst) == Some(pre[src]));
            } else {
                assert(opt_leq(lookup(g, p), lookup(pre, p)));
            }
        }
    }
}

/// Unifying both sides of an equality refines the state.
proof fn lemma_meet_step(
    pre: Map<Seq<isize>, FactV>,
    p: Seq<isize>,
    q: Seq<isize>,
    af: FactV,
    bf: FactV,
    mf: FactV,
    post: Map<Seq<isize>, FactV>,
)
    requires
        lookup(pre, p) == Some(af),
        lookup(pre, q) == Some(bf),
        fact_meet(af, bf) == Some(mf),
        post == pre.insert(p, mf).insert(q, mf) || post == pre.insert(p, mf)
            || post == pre.insert(q, mf),
    ensures
        refines(post, pre),
{
    lemma_fact_meet_lower(af, bf);
    assert forall|r: Seq<isize>| opt_leq(#[trigger] lookup(post, r), lookup(pre, r)) by {
        if r != p && r != q {
            match lookup(pre, r) {
                Option::Some(f) => lemma_fact_leq_refl(f),
                Option::None => {},
            }
        } else {
            if lookup(post, r) == Some(mf) {
            } else {
                match lookup(pre, r) {
                    Option::Some(f) => lemma_fact_leq_refl(f),
                    Option::None => {},
                }
            }
        }
    }
}

/// Every satisfying refinement of the state stays below the state in
/// which both sides of an equality carry the unified fact.
proof fn lemma_equals_bound(
    pre: Map<Seq<isize>, FactV>,
    p: Seq<isize>,
    q: Seq<isize>,
    af: FactV,
    bf: FactV,
    mf: FactV,
    post: Map<Seq<isize>, FactV>,
)
    requires
        lookup(pre, p) == Some(af),
        lookup(pre, q) == Some(bf),
        fact_meet(af, bf) == Some(mf),
        forall|r: Seq<isize>| r != p && r != q ==> #[trigger] lookup(post, r) == lookup(pre, r),
        lookup(post, p) == Some(af) || lookup(post, p) == Some(mf),
        lookup(post, q) == Some(bf) || lookup(post, q) == Some(mf),
    ensures
        forall|g: Map<Seq<isize>, FactV>|
            refines(g, pre) && lookup(g, p) == lookup(g, q) ==> refines(g, post),
{
    assert forall|g: Map<Seq<isize>, FactV>|
        refines(g, pre) && lookup(g, p) == lookup(g, q) implies refines(g, post) by {
        assert(opt_leq(lookup(g, p), Some(af)));
        assert(opt_leq(lookup(g, q), Some(bf)));
        let x = lookup(g, p)->Some_0;
        lemma_fact_meet_glb(x, af, bf);
        assert forall|r: Seq<isize>| opt_leq(#[trigger] lookup(g, r), lookup(post, r)) by {
            if r == p || r == q {
                assert(fact_leq(x, mf));
            } else {
                assert(opt_leq(lookup(g, r), lookup(pre, r)));
            }
        }
    }
}

/// Binding a literal fact at a previously unknown path refines the
/// state and keeps every satisfying refinement below it.
proof fn lemma_given_fresh(
    pre: Map<Seq<isize>, FactV>,
    p: Seq<isize>,
    f: FactV,
    post: Map<Seq<isize>, FactV>,
)
    requires
        !pre.dom().contains(p),
        post == pre.insert(p, f),
    ensures
        refines(post, pre),
        forall|g: Map<Seq<isize>, FactV>|
            refines(g, pre) && opt_leq(lookup(g, p), Some(f)) ==> refines(g, post),
{
    assert forall|r: Seq<isize>| opt_leq(#[trigger] lookup(post, r), lookup(pre, r)) by {
        if r != p {
            match lookup(pre, r) {
                Option::Some(pf) => lemma_fact_leq_refl(pf),
                Option::None => {},
            }
        }
    }
    assert forall|g: Map<Seq<isize>, FactV>|
        refines(g, pre) && opt_leq(lookup(g, p), Some(f)) implies refines(g, post) by {
        assert forall|r: Seq<isize>| opt_leq(#[trigger] lookup(g, r), lookup(post, r)) by {
            if r != p {
                assert(opt_leq(lookup(g, r), lookup(pre, r)));
            }
        }
    }
}

/// Unifying a known fact with a literal refines the state and keeps
/// every satisfying refinement below it.
proof fn lemma_given_step(
    pre: Map<Seq<isize>, FactV>,
    p: Seq<isize>,
    af: FactV,
    f: FactV,
    post: Map<Seq<isize>, FactV>,
)
    requires
        lookup(pre, p) == Some(af),
        fact_meet(af, f) is Some,
        post == pre.insert(p, fact_meet(af, f)->Some_0),
    ensures
        refines(post, pre),
        forall|g: Map<Seq<isize>, FactV>|
            refines(g, pre) && opt_leq(lookup(g, p), Some(f)) ==> refines(g, post),
{
    let mf = fact_meet(af, f)->Some_0;
    lemma_fact_meet_lower(af, f);
    assert forall|r: Seq<isize>| opt_leq(#[trigger] lookup(post, r), lookup(pre, r)) by {
        if r != p {
            match lookup(pre, r) {
                Option::Some(pf) => lemma_fact_leq_refl(pf),
                Option::None => {},
            }
        }
    }
    assert forall|g: Map<Seq<isize>, FactV>|
        refines(g, pre) && opt_leq(lookup(g, p), Some(f)) implies refines(g, post) by {
        assert(opt_leq(lookup(g, p), Some(af)));
        let x = lookup(g, p)->Some_0;
        lemma_fact_meet_glb(x, af, f);
        assert forall|r: Seq<isize>| opt_leq(#[trigger] lookup(g, r), lookup(post, r)) by {
            if r != p {
                assert(opt_leq(lookup(g, r), lookup(pre, r)));
            }
        }
    }
}

/// Whether the entry pair `(i, j)` is settled: if entry `j` binds a
/// dimension fact directly under entry `i`'s known-rank shape fact,
/// the component index lies within the rank and the two agree.
spec fn pair_ok(s: Seq<Binding>, i: int, j: int) -> bool {
    forall|c: isize|
        (s[j].path@ == #[trigger] s[i].path@.push(c) && s[i].fact@ is Shape
            && s[i].fact@->Shape_0 is Some && s[j].fact@ is Dim)
            ==> 0 <= c < s[i].fact@->Shape_0->Some_0.len()
                && s[i].fact@->Shape_0->Some_0[c as int] == s[j].fact@->Dim_0
}

/// One structural coherence step: finds a dimension fact bound
/// directly under a known-rank shape fact that does not agree with
/// the shape's component yet, and unifies the two. `Ok(false)`
/// reports that every such pair already agrees, so the state is
/// coherent; `Ok(true)` reports a refinement of one pair; an error
/// names a component path at which no refinement of the incoming
/// state can be coherent, and leaves the context exactly as it was.
fn apply_structural(ctx: &mut Context) -> (r: Result<bool, Path>)
    requires
        old(ctx).wf(),
    ensures
        final(ctx).wf(),
        refines(final(ctx)@, old(ctx)@),
        forall|pp: Seq<isize>| #[trigger] final(ctx)@.dom().contains(pp)
            ==> old(ctx)@.dom().contains(pp),
        match r {
            Ok(changed) => {
                &&& (!changed ==> final(ctx)@ == old(ctx)@ && coherent(final(ctx)@))
                &&& (changed ==> exists|pc: Seq<isize>| #[trigger] old(ctx)@.dom().contains(pc)
                    && lookup(final(ctx)@, pc) != lookup(old(ctx)@, pc))
                &&& forall|g: Map<Seq<isize>, FactV>|
                    refines(g, old(ctx)@) && coherent(g) ==> refines(g, final(ctx)@)
            },
            Err(_) => {
                &&& final(ctx)@ == old(ctx)@
                &&& forall|g: Map<Seq<isize>, FactV>|
                    refines(g, old(ctx)@) ==> !coherent(g)
            },
        },
{
    let n = ctx.entries.len();
    let mut j: usize = 0;
    while j < n
        invariant
            j <= n,
            n == ctx.entries@.len(),
            ctx == old(ctx),
            old(ctx).wf(),
            forall|jj: int, ii: int| 0 <= jj < j && 0 <= ii < n
                ==> #[trigger] pair_ok(ctx.entries@, ii, jj),
        decreases n - j,
    {
        let od_opt = match &ctx.entries[j].fact {
            Fact::Dim(x) => Some(*x),
            _ => None,
        };
        if let Some(od) = od_opt {
            let mut i: usize = 0;
            while i < n
                invariant
                    i <= n,
                    j < n,
                    n == ctx.entries@.len(),
                    ctx == old(ctx),
                    old(ctx).wf(),
                    ctx.entries@[j as int].fact@ == FactV::Dim(od@),
                    forall|jj: int, ii: int| 0 <= jj < j && 0 <= ii < n
                        ==> #[trigger] pair_ok(ctx.entries@, ii, jj),
                    forall|ii: int| 0 <= ii < i ==> #[trigger] pair_ok(ctx.entries@, ii, j as int),
                decreases n - i,
            {
                let sel = ctx.entries[i].path.selector_of(&ctx.entries[j].path);
                let mut new_dims: Option<Vec<DimFact>> = None;
                let mut new_dim: Option<DimFact> = None;
                if let Some(c) = sel {
                    let shape_dims = match &ctx.entries[i].fact {
                        Fact::Shape(ShapeFact::Dims(dv)) => Some(dv),
                        _ => None,
                    };
                    if let Some(dv) = shape_dims {
                        proof {
                            lemma_bind_map_at(ctx.entries@, i as int);
                            lemma_bind_map_at(ctx.entries@, j as int);
                        }
                        let ghost sp = ctx.entries@[i as int].path@;
                        let ghost dp = ctx.entries@[j as int].path@;
                        let ghost d = crate::fact::dim_seq(dv@);
                        if c < 0 || c as usize >= dv.len() {
                            let bad = ctx.entries[j].path.duplicate();
                            proof {
                                lemma_refines_refl(ctx@);
                                assert forall|g: Map<Seq<isize>, FactV>| refines(g, ctx@)
                                    implies !coherent(g) by {
                                    if coherent(g) {
                                        assert(opt_leq(lookup(g, sp), lookup(ctx@, sp)));
                                        assert(opt_leq(lookup(g, dp), lookup(ctx@, dp)));
                                        assert(dim_at(g, sp.push(c)) is Some);
                                        assert(shape_dims_at(g, sp) is Some);
                                        assert(shape_dims_at(g, sp)->Some_0.len() == d.len());
                                    }
                                }
                            }
                            return Err(bad);
                        }
                        let cu = c as usize;
                        let slot = dv[cu];
                        match (slot, od) {
                            (DimFact::Only(u), DimFact::Only(w)) => {
                                if u != w {
                                    let bad = ctx.entries[j].path.duplicate();
                                    proof {
                                        lemma_refines_refl(ctx@);
                                        assert(d[c as int] == slot@);
                                        assert forall|g: Map<Seq<isize>, FactV>| refines(g, ctx@)
                                            implies !coherent(g) by {
                                            if coherent(g) {
                                                assert(opt_leq(lookup(g, sp), lookup(ctx@, sp)));
                                                assert(opt_leq(lookup(g, dp), lookup(ctx@, dp)));
                                                assert(dim_at(g, sp.push(c)) is Some);
                                                assert(shape_dims_at(g, sp) is Some);
                                                let dg = shape_dims_at(g, sp)->Some_0;
                                                assert(flat_leq(dg[c as int], d[c as int]));
                                            }
                                        }
                                    }
                                    return Err(bad);
                                }
                            },
                            (DimFact::Any, DimFact::Only(w)) => {
                                let mut out: Vec<DimFact> = Vec::new();
                                let mut k: usize = 0;
                                while k < dv.len()
                                    invariant
                                        k <= dv@.len(),
                                        cu < dv@.len(),
                                        out@.len() == k,
                                        forall|t: int| 0 <= t < k
                                            ==> #[trigger] out@[t] == (if t == cu as int {
                                                DimFact::Only(w)
                                            } else {
                                                dv@[t]
                                            }),
                                    decreases dv@.len() - k,
                                {
                                    if k == cu {
                                        out.push(DimFact::Only(w));
                                    } else {
                                        out.push(dv[k]);
                                    }
                                    k = k + 1;
                                }
                                new_dims = Some(out);
                            },
                            (DimFact::Only(u), DimFact::Any) => {
                                new_dim = Some(DimFact::Only(u));
                            },
                            (DimFact::Any, DimFact::Any) => {},
                        }
                        if new_dims.is_none() && new_dim.is_none() {
                            proof {
                                assert(d[c as int] == od@);
                                assert forall|cc: isize|
                                    (ctx.entries@[j as int].path@
                                        == #[trigger] ctx.entries@[i as int].path@.push(cc)
                                        && ctx.entries@[i as int].fact@ is Shape
                                        && ctx.entries@[i as int].fact@->Shape_0 is Some
                                        && ctx.entries@[j as int].fact@ is Dim)
                                    implies 0 <= cc
                                        < ctx.entries@[i as int].fact@->Shape_0->Some_0.len()
                                        && ctx.entries@[i as int].fact@->Shape_0->Some_0[cc as int]
                                            == ctx.entries@[j as int].fact@->Dim_0 by {
                                    assert(sp.push(cc) == sp.push(c));
                                    assert(sp.push(cc)[sp.len() as int] == cc);
                                    assert(cc == c);
                                }
                                assert(pair_ok(ctx.entries@, i as int, j as int));
                            }
                        }
                    }
                }
                if let Some(out) = new_dims {
                    let ghost pre = ctx@;
                    let ghost sp = ctx.entries@[i as int].path@;
                    let ghost dp = ctx.entries@[j as int].path@;
                    let ghost d = ctx.entries@[i as int].fact@->Shape_0->Some_0;
                    let ghost c = dp[dp.len() - 1];
                    let sp_path = ctx.entries[i].path.duplicate();
                    let shape_fact = Fact::Shape(ShapeFact::Dims(out));
                    let ghost d2 = shape_fact@->Shape_0->Some_0;
                    ctx.set(&sp_path, shape_fact);
                    proof {
                        lemma_structural_shape_step(pre, sp, dp, c, d, d2, od@, ctx@);
                    }
                    return Ok(true);
                }
                if let Some(nd) = new_dim {
                    let ghost pre = ctx@;
                    let ghost sp = ctx.entries@[i as int].path@;
                    let ghost dp = ctx.entries@[j as int].path@;
                    let ghost d = ctx.entries@[i as int].fact@->Shape_0->Some_0;
                    let ghost c = dp[dp.len() - 1];
                    let dp_path = ctx.entries[j].path.duplicate();
                    let dim_fact = Fact::Dim(nd);
                    ctx.set(&dp_path, dim_fact);
                    proof {
                        lemma_structural_dim_step(pre, sp, dp, c, d, od@, nd@, ctx@);
                    }
                    return Ok(true);
                }
                i = i + 1;
            }
        } else {
            proof {
                assert forall|ii: int| 0 <= ii < n
                    implies #[trigger] pair_ok(ctx.entries@, ii, j as int) by {}
            }
        }
        j = j + 1;
    }
    proof {
        lemma_refines_refl(ctx@);
        lemma_bind_map_dom(ctx.entries@);
        assert forall|p: Seq<isize>, c: isize|
            #[trigger] dim_at(ctx@, p.push(c)) is Some && shape_dims_at(ctx@, p) is Some
            implies 0 <= c < shape_dims_at(ctx@, p)->Some_0.len()
                && shape_dims_at(ctx@, p)->Some_0[c as int] == dim_at(ctx@, p.push(c))->Some_0 by {
            assert(has_path(ctx.entries@, p));
            assert(has_path(ctx.entries@, p.push(c)));
            let ii = choose|ii: int| 0 <= ii < ctx.entries@.len()
                && (#[trigger] ctx.entries@[ii]).path@ == p;
            let jj = choose|jj: int| 0 <= jj < ctx.entries@.len()
                && (#[trigger] ctx.entries@[jj]).path@ == p.push(c);
            lemma_bind_map_at(ctx.entries@, ii);
            lemma_bind_map_at(ctx.entries@, jj);
            assert(pair_ok(ctx.entries@, ii, jj));
            assert(ctx.entries@[jj].path@ == ctx.entries@[ii].path@.push(c));
        }
    }
    Ok(false)
}

/// Refining a shape's component from the dimension fact bound under
/// it refines the state and keeps every coherent refinement below it.
proof fn lemma_structural_shape_step(
    pre: Map<Seq<isize>, FactV>,
    sp: Seq<isize>,
    dp: Seq<isize>,
    c: isize,
    d: Seq<Option<nat>>,
    d2: Seq<Option<nat>>,
    od: Option<nat>,
    post: Map<Seq<isize>, FactV>,
)
    requires
        lookup(pre, sp) == Some(FactV::Shape(Some(d))),
        lookup(pre, dp) == Some(FactV::Dim(od)),
        dp == sp.push(c),
        0 <= c < d.len(),
        d[c as int] is None,
        od is Some,
        d2.len() == d.len(),
        forall|t: int| 0 <= t < d.len()
            ==> #[trigger] d2[t] == (if t == c as int { od } else { d[t] }),
        post == pre.insert(sp, FactV::Shape(Some(d2))),
    ensures
        refines(post, pre),
        lookup(post, sp) != lookup(pre, sp),
        forall|g: Map<Seq<isize>, FactV>|
            refines(g, pre) && coherent(g) ==> refines(g, post),
{
    assert(fact_leq(FactV::Shape(Some(d2)), FactV::Shape(Some(d)))) by {
        assert forall|t: int| 0 <= t < d.len() implies flat_leq(#[trigger] d2[t], d[t]) by {}
    }
    lemma_refines_insert(pre, sp, FactV::Shape(Some(d)), FactV::Shape(Some(d2)));
    assert(d2[c as int] != d[c as int]);
    assert(lookup(post, sp) == Some(FactV::Shape(Some(d2))));
    assert forall|g: Map<Seq<isize>, FactV>|
        refines(g, pre) && coherent(g) implies refines(g, post) by {
        assert(opt_leq(lookup(g, sp), lookup(pre, sp)));
        assert(opt_leq(lookup(g, dp), lookup(pre, dp)));
        let dg = shape_dims_at(g, sp)->Some_0;
        assert(dim_at(g, sp.push(c)) is Some);
        assert(shape_dims_at(g, sp) is Some);
        assert(dg[c as int] == dim_at(g, sp.push(c))->Some_0);
        assert(flat_leq(dim_at(g, sp.push(c))->Some_0, od));
        assert(dg.len() == d.len());
        assert(fact_leq(FactV::Shape(Some(dg)), FactV::Shape(Some(d2)))) by {
            assert forall|t: int| 0 <= t < d2.len()
                implies flat_leq(#[trigger] dg[t], d2[t]) by {
                assert(flat_leq(dg[t], d[t]));
            }
        }
        assert forall|r: Seq<isize>| opt_leq(#[trigger] lookup(g, r), lookup(post, r)) by {
            if r != sp {
                assert(opt_leq(lookup(g, r), lookup(pre, r)));
            }
        }
    }
}

/// Refining the dimension fact bound under a shape from the shape's
/// component refines the state and keeps every coherent refinement
/// below it.
proof fn lemma_structural_dim_step(
    pre: Map<Seq<isize>, FactV>,
    sp: Seq<isize>,
    dp: Seq<isize>,
    c: isize,
    d: Seq<Option<nat>>,
    od: Option<nat>,
    nd: Option<nat>,
    post: Map<Seq<isize>, FactV>,
)
    requires
        lookup(pre, sp) == Some(FactV::Shape(Some(d))),
        lookup(pre, dp) == Some(FactV::Dim(od)),
        dp == sp.push(c),
        0 <= c < d.len(),
        od is None,
        nd == d[c as int],
        nd is Some,
        post == pre.insert(dp, FactV::Dim(nd)),
    ensures
        refines(post, pre),
        lookup(post, dp) != lookup(pre, dp),
        forall|g: Map<Seq<isize>, FactV>|
            refines(g, pre) && coherent(g) ==> refines(g, post),
{
    lemma_refines_insert(pre, dp, FactV::Dim(od), FactV::Dim(nd));
    assert(lookup(post, dp) == Some(FactV::Dim(nd)));
    assert forall|g: Map<Seq<isize>, FactV>|
        refines(g, pre) && coherent(g) implies refines(g, post) by {
        assert(opt_leq(lookup(g, sp), lookup(pre, sp)));
        assert(opt_leq(lookup(g, dp), lookup(pre, dp)));
        let dg = shape_dims_at(g, sp)->Some_0;
        assert(dim_at(g, sp.push(c)) is Some);
        assert(shape_dims_at(g, sp) is Some);
        assert(dg[c as int] == dim_at(g, sp.push(c))->Some_0);
        assert(flat_leq(dg[c as int], d[c as int]));
        assert forall|r: Seq<isize>| opt_leq(#[trigger] lookup(g, r), lookup(post, r)) by {
            if r != dp {
                assert(opt_leq(lookup(g, r), lookup(pre, r)));
            }
        }
    }
}

/// Runs the rule set to a fixpoint over the node's fact trees.
///
/// Success is owed exactly when some refinement of the incoming state
/// satisfies every rule and is coherent. On success the final state
/// satisfies every rule, is coherent, refines the incoming state, and
/// is the most general such state: every coherent refinement of the
/// incoming state that satisfies all rules refines it. On failure no
/// coherent refinement of the incoming state can satisfy every rule;
/// a rule contradiction names the offending rule and one path it
/// references, and that rule is still unsatisfied in the final state
/// (the failing unification wrote nothing); an incoherence names the
/// offending component path. Either way the context is left at the
/// last consistent refinement reached.
pub fn solve(ctx: &mut Context, rules: &Vec<Rule>) -> (r: Result<(), SolverError>)
    requires
        old(ctx).wf(),
    ensures
        final(ctx).wf(),
        refines(final(ctx)@, old(ctx)@),
        forall|pp: Seq<isize>| #[trigger] final(ctx)@.dom().contains(pp)
            ==> old(ctx)@.dom().contains(pp) || mentioned_any(rules_view(rules@), pp),
        (exists|g: Map<Seq<isize>, FactV>|
            #[trigger] refines(g, old(ctx)@) && satisfied_all(rules_view(rules@), g)
                && coherent(g)) ==> r is Ok,
        r is Ok ==> satisfied_all(rules_view(rules@), final(ctx)@) && coherent(final(ctx)@),
        r is Ok ==> forall|g: Map<Seq<isize>, FactV>|
            refines(g, old(ctx)@) && satisfied_all(rules_view(rules@), g) && coherent(g)
                ==> refines(g, final(ctx)@),
        r is Err ==> forall|g: Map<Seq<isize>, FactV>|
            refines(g, old(ctx)@)
                ==> !(satisfied_all(rules_view(rules@), g) && coherent(g)),
        r matches Err(e) ==> match e {
            SolverError::Contradiction { rule, path } => {
                &&& rule < rules@.len()
                &&& rule_mentions(rules@[rule as int]@, path@)
                &&& !satisfied(rules@[rule as int]@, final(ctx)@)
            },
            SolverError::Incoherent { path: _ } => forall|g: Map<Seq<isize>, FactV>|
                refines(g, final(ctx)@) ==> !coherent(g),
        },
{
    let ghost ps0 = ctx.entries@.map(|k: int, b: Binding| b.path@);
    proof {
        lemma_refines_refl(old(ctx)@);
        lemma_bind_map_dom(ctx.entries@);
        assert forall|pp: Seq<isize>| #[trigger] ctx@.dom().contains(pp)
            implies exists|t: int| 0 <= t < ps0.len() && #[trigger] ps0[t] == pp by {
            assert(has_path(ctx.entries@, pp));
            let t = choose|t: int|
                0 <= t < ctx.entries@.len() && (#[trigger] ctx.entries@[t]).path@ == pp;
            assert(ps0[t] == pp);
        }
    }
    loop
        invariant
            ctx.wf(),
            refines(ctx@, old(ctx)@),
            forall|g: Map<Seq<isize>, FactV>|
                refines(g, old(ctx)@) && satisfied_all(rules_view(rules@), g) && coherent(g)
                    ==> refines(g, ctx@),
            forall|pp: Seq<isize>| #[trigger] ctx@.dom().contains(pp)
                ==> old(ctx)@.dom().contains(pp) || mentioned_any(rules_view(rules@), pp),
            forall|pp: Seq<isize>| #[trigger] old(ctx)@.dom().contains(pp)
                ==> exists|t: int| 0 <= t < ps0.len() && #[trigger] ps0[t] == pp,
        decreases
            hi_rules(rules_view(rules@), ctx@) + hi_paths(ps0, ctx@),
            lo_rules(rules_view(rules@), ctx@) + lo_paths(ps0, ctx@),
    {
        let ghost start = ctx@;
        let mut changed = false;
        let mut i: usize = 0;
        while i < rules.len()
            invariant
                i <= rules@.len(),
                ctx.wf(),
                refines(ctx@, old(ctx)@),
                refines(ctx@, start),
                forall|g: Map<Seq<isize>, FactV>|
                    refines(g, old(ctx)@) && satisfied_all(rules_view(rules@), g) && coherent(g)
                        ==> refines(g, ctx@),
                forall|pp: Seq<isize>| #[trigger] ctx@.dom().contains(pp)
                    ==> old(ctx)@.dom().contains(pp) || mentioned_any(rules_view(rules@), pp),
                !changed ==> ctx@ == start,
                !changed ==> forall|k: int| 0 <= k < i
                    ==> satisfied(#[trigger] rules_view(rules@)[k], ctx@),
                changed ==> hi_rules(rules_view(rules@), ctx@) + hi_paths(ps0, ctx@)
                        < hi_rules(rules_view(rules@), start) + hi_paths(ps0, start)
                    || (hi_rules(rules_view(rules@), ctx@) + hi_paths(ps0, ctx@)
                            == hi_rules(rules_view(rules@), start) + hi_paths(ps0, start)
                        && lo_rules(rules_view(rules@), ctx@) + lo_paths(ps0, ctx@)
                            < lo_rules(rules_view(rules@), start) + lo_paths(ps0, start)),
            decreases rules@.len() - i,
        {
            let ghost pre = ctx@;
            match apply_rule(ctx, &rules[i]) {
                Result::Err(path) => {
                    proof {
                        assert(rules_view(rules@)[i as int] == rules@[i as int]@);
                        lemma_refines_refl(ctx@);
                        assert(!satisfied(rules@[i as int]@, ctx@));
                        assert forall|g: Map<Seq<isize>, FactV>| refines(g, old(ctx)@)
                            implies !(satisfied_all(rules_view(rules@), g) && coherent(g)) by {
                            if satisfied_all(rules_view(rules@), g) && coherent(g) {
                                assert(refines(g, ctx@));
                                assert(satisfied(rules_view(rules@)[i as int], g));
                            }
                        }
                    }
                    return Err(SolverError::Contradiction { rule: i, path });
                },
                Result::Ok(c) => {
                    proof {
                        assert(rules_view(rules@)[i as int] == rules@[i as int]@);
                        lemma_refines_trans(ctx@, pre, old(ctx)@);
                        lemma_refines_trans(ctx@, pre, start);
                        assert forall|g: Map<Seq<isize>, FactV>|
                            refines(g, old(ctx)@) && satisfied_all(rules_view(rules@), g)
                                && coherent(g)
                            implies refines(g, ctx@) by {
                            assert(refines(g, pre));
                            assert(satisfied(rules_view(rules@)[i as int], g));
                        }
                        assert forall|pp: Seq<isize>| #[trigger] ctx@.dom().contains(pp)
                            implies old(ctx)@.dom().contains(pp)
                                || mentioned_any(rules_view(rules@), pp) by {
                            if !pre.dom().contains(pp) {
                                assert(rule_mentions(rules_view(rules@)[i as int], pp));
                            }
                        }
                        if c {
                            assert(exists|pc: Seq<isize>| rule_mentions(rules@[i as int]@, pc)
                                && #[trigger] lookup(ctx@, pc) != lookup(pre, pc));
                            let pc = choose|pc: Seq<isize>| rule_mentions(rules@[i as int]@, pc)
                                && #[trigger] lookup(ctx@, pc) != lookup(pre, pc);
                            lemma_sums_strict(rules_view(rules@), pre, ctx@, i as int, pc);
                            lemma_paths_weak(ps0, pre, ctx@);
                            lemma_sums_weak(rules_view(rules@), start, pre);
                            lemma_paths_weak(ps0, start, pre);
                        }
                    }
                    if c {
                        changed = true;
                    }
                },
            }
            i = i + 1;
        }
        let ghost mid = ctx@;
        match apply_structural(ctx) {
            Result::Err(path) => {
                proof {
                    assert(!coherent(ctx@));
                    assert forall|g: Map<Seq<isize>, FactV>| refines(g, old(ctx)@)
                        implies !(satisfied_all(rules_view(rules@), g) && coherent(g)) by {
                        if satisfied_all(rules_view(rules@), g) && coherent(g) {
                            assert(refines(g, mid));
                        }
                    }
                }
                return Err(SolverError::Incoherent { path });
            },
            Result::Ok(sc) => {
                proof {
                    lemma_refines_trans(ctx@, mid, old(ctx)@);
                    lemma_refines_trans(ctx@, mid, start);
                    assert forall|g: Map<Seq<isize>, FactV>|
                        refines(g, old(ctx)@) && satisfied_all(rules_view(rules@), g)
                            && coherent(g)
                        implies refines(g, ctx@) by {
                        assert(refines(g, mid));
                    }
                    if sc {
                        let pc = choose|pc: Seq<isize>| #[trigger] mid.dom().contains(pc)
                            && lookup(ctx@, pc) != lookup(mid, pc);
                        if old(ctx)@.dom().contains(pc) {
                            let t = choose|t: int|
                                0 <= t < ps0.len() && #[trigger] ps0[t] == pc;
                            lemma_paths_strict(ps0, mid, ctx@, t, pc);
                            lemma_sums_weak(rules_view(rules@), mid, ctx@);
                        } else {
                            assert(mentioned_any(rules_view(rules@), pc));
                            let k = choose|k: int| 0 <= k < rules_view(rules@).len()
                                && rule_mentions(#[trigger] rules_view(rules@)[k], pc);
                            lemma_sums_strict(rules_view(rules@), mid, ctx@, k, pc);
                            lemma_paths_weak(ps0, mid, ctx@);
                        }
                        lemma_sums_weak(rules_view(rules@), start, mid);
                        lemma_paths_weak(ps0, start, mid);
                    }
                }
                if sc {
                    changed = true;
                }
            },
        }
        if !changed {
            proof {
                assert forall|k: int| 0 <= k < rules_view(rules@).len()
                    implies satisfied(#[trigger] rules_view(rules@)[k], ctx@) by {}
            }
            return Ok(());
        }
    }
}

/// Fixpoint is a fixed point: a run of the solver that starts from a
/// state already satisfying every rule, and meets the solver's
/// contract, returns that state unchanged.
pub proof fn lemma_solve_idempotent(
    rules: Seq<RuleV>,
    m: Map<Seq<isize>, FactV>,
    m2: Map<Seq<isize>, FactV>,
)
    requires
        satisfied_all(rules, m),
        coherent(m),
        refines(m2, m),
        forall|g: Map<Seq<isize>, FactV>|
            refines(g, m) && satisfied_all(rules, g) && coherent(g) ==> refines(g, m2),
    ensures
        m2 == m,
{
    lemma_refines_refl(m);
    assert(refines(m, m2));
    lemma_refines_antisym(m2, m);
}

/// A rule is satisfied wherever every rule of a set containing it is.
proof fn lemma_satisfied_all_contains(
    rules1: Seq<RuleV>,
    rules2: Seq<RuleV>,
    g: Map<Seq<isize>, FactV>,
)
    requires
        forall|r: RuleV| rules1.contains(r) <==> rules2.contains(r),
        satisfied_all(rules1, g),
    ensures
        satisfied_all(rules2, g),
{
    assert forall|i: int| 0 <= i < rules2.len()
        implies satisfied(#[trigger] rules2[i], g) by {
        assert(rules2.contains(rules2[i]));
        assert(rules1.contains(rules2[i]));
        let j = choose|j: int| 0 <= j < rules1.len() && rules1[j] == rules2[i];
        assert(satisfied(rules1[j], g));
    }
}

/// Order independence: two runs over rule sets with the same members,
/// each meeting the solver's contract from the same incoming state,
/// end in the same state.
pub proof fn lemma_solve_order_independent(
    rules1: Seq<RuleV>,
    rules2: Seq<RuleV>,
    m: Map<Seq<isize>, FactV>,
    f1: Map<Seq<isize>, FactV>,
    f2: Map<Seq<isize>, FactV>,
)
    requires
        forall|r: RuleV| rules1.contains(r) <==> rules2.contains(r),
        refines(f1, m),
        satisfied_all(rules1, f1),
        coherent(f1),
        forall|g: Map<Seq<isize>, FactV>|
            refines(g, m) && satisfied_all(rules1, g) && coherent(g) ==> refines(g, f1),
        refines(f2, m),
        satisfied_all(rules2, f2),
        coherent(f2),
        forall|g: Map<Seq<isize>, FactV>|
            refines(g, m) && satisfied_all(rules2, g) && coherent(g) ==> refines(g, f2),
    ensures
        f1 == f2,
{
    lemma_satisfied_all_contains(rules1, rules2, f1);
    lemma_satisfied_all_contains(rules2, rules1, f2);
    assert(refines(f2, f1));
    assert(refines(f1, f2));
    lemma_refines_antisym(f1, f2);
}

} // verus!
