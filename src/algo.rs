//! Solving plans: a leaf solves one variable directly, an inner node fuses
//! two plans; each plan is scored by time, memory and number of solutions.
use vstd::prelude::*;

use crate::field::DEFAULT_POLY;
use crate::matrix::{distinct, names_view, Matrix, MatrixError};
use crate::names::has_name;
use std::cmp::Ordering;

verus! {

/// The largest number of variables that one fusion may cover.
pub const MAX_FUSION_VARS: usize = 40;

/// Failures of plan construction.
#[derive(Debug, Clone, Copy, PartialEq, Eq, Structural)]
pub enum PlanError {
    /// The fused plan would cover more than `MAX_FUSION_VARS` variables.
    ResourceLimitExceeded,
    /// Counting the solutions failed in the matrix.
    Matrix(MatrixError),
    /// There is no variable to solve for.
    NothingToSolve,
}

/// The set of names that `v` holds.
pub open spec fn scope(v: Seq<String>) -> Set<Seq<char>> {
    Set::new(|n: Seq<char>| has_name(v, n))
}

/// `(t1, m1, s1)` is no worse than `(t2, m2, s2)` in lexicographic order.
pub open spec fn costs_le(t1: nat, m1: nat, s1: nat, t2: nat, m2: nat, s2: nat) -> bool {
    t1 < t2 || (t1 == t2 && (m1 < m2 || (m1 == m2 && s1 <= s2)))
}

/// The smaller of `a` and `b`.
pub open spec fn min_nat(a: nat, b: nat) -> nat {
    if a <= b {
        a
    } else {
        b
    }
}

/// A solving plan over a set of variables.
#[derive(Debug)]
pub struct Algo {
    vars: Vec<String>,
    time: usize,
    memory: usize,
    nb_solutions: usize,
    son1: Option<Box<Algo>>,
    son2: Option<Box<Algo>>,
}

/// Whether every name of `a` is in `b`.
fn names_subset(a: &Vec<String>, b: &Vec<String>) -> (r: bool)
    ensures
        r == scope(a@).subset_of(scope(b@)),
{
    let mut i: usize = 0;
    while i < a.len()
        invariant
            i <= a@.len(),
            forall|k: int| 0 <= k < i ==> has_name(b@, #[trigger] a@[k]@),
        decreases a@.len() - i,
    {
        if !crate::names::contains_name(b, &a[i]) {
            assert(scope(a@).contains(a@[i as int]@));
            return false;
        }
        i = i + 1;
    }
    assert forall|n: Seq<char>| scope(a@).contains(n) implies scope(b@).contains(n) by {
        let k = choose|k: int| 0 <= k < a@.len() && #[trigger] a@[k]@ == n;
        assert(has_name(b@, a@[k]@));
    }
    true
}

/// A copy of `v`, name by name.
fn copy_vars(v: &Vec<String>) -> (r: Vec<String>)
    ensures
        names_view(r@) == names_view(v@),
{
    let mut r: Vec<String> = Vec::new();
    let mut j: usize = 0;
    while j < v.len()
        invariant
            j <= v@.len(),
            r@.len() == j,
            forall|k: int| 0 <= k < j ==> r@[k]@ == v@[k]@,
        decreases v@.len() - j,
    {
        r.push(v[j].clone());
        j = j + 1;
    }
    assert(names_view(r@) =~= names_view(v@));
    r
}

/// Lists with the same names hold the same names.
proof fn lemma_same_scope(a: Seq<String>, b: Seq<String>)
    requires
        names_view(a) == names_view(b),
    ensures
        scope(a) == scope(b),
        forall|n: Seq<char>| has_name(a, n) <==> has_name(b, n),
{
    assert(a.len() == names_view(a).len());
    assert(b.len() == names_view(b).len());
    assert forall|n: Seq<char>| has_name(a, n) <==> has_name(b, n) by {
        if has_name(a, n) {
            let k = choose|k: int| 0 <= k < a.len() && #[trigger] a[k]@ == n;
            assert(names_view(a)[k] == names_view(b)[k]);
            assert(b[k]@ == n);
        }
        if has_name(b, n) {
            let k = choose|k: int| 0 <= k < b.len() && #[trigger] b[k]@ == n;
            assert(names_view(a)[k] == names_view(b)[k]);
            assert(a[k]@ == n);
        }
    }
    assert(scope(a) =~= scope(b));
}

/// `v` followed by the names of `w` that it lacks.
fn union_vars(v: &Vec<String>, w: &Vec<String>) -> (r: Vec<String>)
    requires
        distinct(names_view(v@)),
    ensures
        distinct(names_view(r@)),
        scope(r@) == scope(v@).union(scope(w@)),
{
    let mut r = copy_vars(v);
    proof {
        lemma_same_scope(r@, v@);
    }
    let mut j: usize = 0;
    while j < w.len()
        invariant
            j <= w@.len(),
            distinct(names_view(r@)),
            forall|n: Seq<char>| has_name(r@, n) <==> (has_name(v@, n) || exists|k: int| 0 <= k < j && #[trigger] w@[k]@ == n),
        decreases w@.len() - j,
    {
        if !crate::names::contains_name(&r, &w[j]) {
            let ghost r0 = r@;
            r.push(w[j].clone());
            proof {
                assert forall|a: int, b: int| 0 <= a < r@.len() && 0 <= b < r@.len() && a != b implies names_view(r@)[a] != names_view(r@)[b] by {
                    if a == r@.len() - 1 {
                        assert(!has_name(r0, r@[a]@));
                        assert(r@[b] == r0[b]);
                    } else if b == r@.len() - 1 {
                        assert(!has_name(r0, r@[b]@));
                        assert(r@[a] == r0[a]);
                    } else {
                        assert(names_view(r0)[a] != names_view(r0)[b]);
                    }
                }
                assert forall|n: Seq<char>| has_name(r@, n) <==> (has_name(v@, n) || exists|k: int| 0 <= k < j + 1 && #[trigger] w@[k]@ == n) by {
                    if has_name(r@, n) {
                        let k = choose|k: int| 0 <= k < r@.len() && #[trigger] r@[k]@ == n;
                        if k < r0.len() {
                            assert(r0[k]@ == n);
                            assert(has_name(r0, n));
                        } else {
                            assert(w@[j as int]@ == n);
                        }
                    }
                    if exists|k: int| 0 <= k < j + 1 && #[trigger] w@[k]@ == n {
                        let k = choose|k: int| 0 <= k < j + 1 && #[trigger] w@[k]@ == n;
                        if k == j {
                            assert(r@[r@.len() - 1]@ == n);
                        } else {
                            assert(has_name(r0, n));
                            let q = choose|q: int| 0 <= q < r0.len() && #[trigger] r0[q]@ == n;
                            assert(r@[q] == r0[q]);
                        }
                    }
                    if has_name(v@, n) {
                        assert(has_name(r0, n));
                        let q = choose|q: int| 0 <= q < r0.len() && #[trigger] r0[q]@ == n;
                        assert(r@[q] == r0[q]);
                    }
                }
            }
        } else {
            proof {
                assert forall|n: Seq<char>| has_name(r@, n) <==> (has_name(v@, n) || exists|k: int| 0 <= k < j + 1 && #[trigger] w@[k]@ == n) by {
                    if exists|k: int| 0 <= k < j + 1 && #[trigger] w@[k]@ == n {
                        let k = choose|k: int| 0 <= k < j + 1 && #[trigger] w@[k]@ == n;
                        if k == j {
                            assert(has_name(r@, w@[j as int]@));
                        }
                    }
                }
            }
        }
        j = j + 1;
    }
    proof {
        assert forall|n: Seq<char>| scope(r@).contains(n) <==> scope(v@).union(scope(w@)).contains(n) by {
            if has_name(w@, n) {
                let k = choose|k: int| 0 <= k < w@.len() && #[trigger] w@[k]@ == n;
            }
        }
        assert(scope(r@) =~= scope(v@).union(scope(w@)));
    }
    r
}

/// The distinct names of `v`, in first-seen order.
fn dedup_vars(v: &Vec<String>) -> (r: Vec<String>)
    ensures
        distinct(names_view(r@)),
        scope(r@) == scope(v@),
{
    let empty: Vec<String> = Vec::new();
    assert(distinct(names_view(empty@)));
    let r = union_vars(&empty, v);
    assert(scope(empty@) =~= Set::empty());
    assert(scope(r@) =~= scope(v@));
    r
}

impl PartialEq for Algo {
    /// Two plans are equal when they cover the same variables at the same
    /// costs.
    fn eq(&self, other: &Algo) -> (r: bool)
        ensures
            r == (self.vars() == other.vars() && self.spec_time() == other.spec_time()
                && self.spec_memory() == other.spec_memory() && self.spec_nb_solutions()
                == other.spec_nb_solutions()),
    {
        let same = names_subset(&self.vars, &other.vars) && names_subset(&other.vars, &self.vars);
        proof {
            if self.vars().subset_of(other.vars()) && other.vars().subset_of(self.vars()) {
                assert(self.vars() =~= other.vars());
            }
        }
        same && self.time == other.time && self.memory == other.memory && self.nb_solutions
            == other.nb_solutions
    }
}

impl vstd::std_specs::cmp::PartialEqSpecImpl for Algo {
    open spec fn obeys_eq_spec() -> bool {
        true
    }

    open spec fn eq_spec(&self, other: &Algo) -> bool {
        &&& self.vars() == other.vars()
        &&& self.spec_time() == other.spec_time()
        &&& self.spec_memory() == other.spec_memory()
        &&& self.spec_nb_solutions() == other.spec_nb_solutions()
    }
}

impl PartialOrd for Algo {
    /// The dominance order: comparable only when the variables of `other`
    /// are among those of `self`; then `Greater` when `self` dominates.
    fn partial_cmp(&self, other: &Algo) -> (r: Option<Ordering>)
        ensures
            r == (if other.vars().subset_of(self.vars()) {
                if Algo::dominates_spec(self, other) {
                    Some(Ordering::Greater)
                } else {
                    Some(Ordering::Less)
                }
            } else {
                None
            }),
    {
        if names_subset(&other.vars, &self.vars) {
            if self.costs_no_worse(other) {
                Some(Ordering::Greater)
            } else {
                Some(Ordering::Less)
            }
        } else {
            None
        }
    }
}

impl vstd::std_specs::cmp::PartialOrdSpecImpl for Algo {
    open spec fn obeys_partial_cmp_spec() -> bool {
        true
    }

    open spec fn partial_cmp_spec(&self, other: &Algo) -> Option<Ordering> {
        if other.vars().subset_of(self.vars()) {
            if Algo::dominates_spec(self, other) {
                Some(Ordering::Greater)
            } else {
                Some(Ordering::Less)
            }
        } else {
            None
        }
    }
}

impl Algo {
    /// The variables the plan solves.
    pub closed spec fn vars(&self) -> Set<Seq<char>> {
        scope(self.vars@)
    }

    pub closed spec fn spec_time(&self) -> nat {
        self.time as nat
    }

    pub closed spec fn spec_memory(&self) -> nat {
        self.memory as nat
    }

    pub closed spec fn spec_nb_solutions(&self) -> nat {
        self.nb_solutions as nat
    }

    /// The plan has no sub-plans.
    pub closed spec fn is_leaf(&self) -> bool {
        self.son1 is None && self.son2 is None
    }

    /// The number of fusions in the plan's tree.
    pub closed spec fn fusion_count(&self) -> nat
        decreases self,
    {
        if self.son1 is None && self.son2 is None {
            0
        } else {
            let l = match self.son1 {
                Some(b) => b.fusion_count(),
                None => 0,
            };
            let r = match self.son2 {
                Some(b) => b.fusion_count(),
                None => 0,
            };
            1 + l + r
        }
    }

    /// The first sub-plan of a fused plan.
    pub closed spec fn left_spec(&self) -> Option<Algo> {
        match self.son1 {
            Some(b) => Some(*b),
            None => None,
        }
    }

    /// The second sub-plan of a fused plan.
    pub closed spec fn right_spec(&self) -> Option<Algo> {
        match self.son2 {
            Some(b) => Some(*b),
            None => None,
        }
    }

    /// The variable list holds no name twice.
    pub closed spec fn wf(&self) -> bool {
        distinct(names_view(self.vars@))
    }

    /// `a` dominates `b`: `b` solves no variable that `a` does not, and the
    /// costs (time, memory, solutions) of `a` are no greater than those of
    /// `b` in lexicographic order. Equal costs count as dominating.
    pub open spec fn dominates_spec(a: &Algo, b: &Algo) -> bool {
        &&& b.vars().subset_of(a.vars())
        &&& costs_le(
            a.spec_time(),
            a.spec_memory(),
            a.spec_nb_solutions(),
            b.spec_time(),
            b.spec_memory(),
            b.spec_nb_solutions(),
        )
    }

    fn costs_no_worse(&self, other: &Algo) -> (r: bool)
        ensures
            r == costs_le(
                self.spec_time(),
                self.spec_memory(),
                self.spec_nb_solutions(),
                other.spec_time(),
                other.spec_memory(),
                other.spec_nb_solutions(),
            ),
    {
        self.time < other.time || (self.time == other.time && (self.memory < other.memory || (
        self.memory == other.memory && self.nb_solutions <= other.nb_solutions)))
    }

    /// A leaf plan over the distinct names of `vars`, with the given costs.
    pub fn new(vars: Vec<String>, time: usize, memory: usize, nb_solutions: usize) -> (r: Algo)
        ensures
            r.wf(),
            r.vars() == scope(vars@),
            r.spec_time() == time,
            r.spec_memory() == memory,
            r.spec_nb_solutions() == nb_solutions,
            r.is_leaf(),
    {
        Algo { vars: dedup_vars(&vars), time, memory, nb_solutions, son1: None, son2: None }
    }

    /// A copy of the whole plan tree.
    pub fn duplicate(&self) -> (r: Algo)
        ensures
            r.wf() == self.wf(),
            r.vars() == self.vars(),
            r.spec_time() == self.spec_time(),
            r.spec_memory() == self.spec_memory(),
            r.spec_nb_solutions() == self.spec_nb_solutions(),
            r.fusion_count() == self.fusion_count(),
            r.is_leaf() == self.is_leaf(),
        decreases self,
    {
        let son1 = match &self.son1 {
            Some(b) => Some(Box::new(b.duplicate())),
            None => None,
        };
        let son2 = match &self.son2 {
            Some(b) => Some(Box::new(b.duplicate())),
            None => None,
        };
        let vars = copy_vars(&self.vars);
        proof {
            lemma_same_scope(vars@, self.vars@);
        }
        Algo { vars, time: self.time, memory: self.memory, nb_solutions: self.nb_solutions, son1, son2 }
    }

    /// Whether every variable of `self` is a variable of `other`.
    pub fn vars_subset_of(&self, other: &Algo) -> (r: bool)
        ensures
            r == self.vars().subset_of(other.vars()),
    {
        names_subset(&self.vars, &other.vars)
    }

    /// Whether every variable of `self` is among `names`.
    pub fn vars_within(&self, names: &Vec<String>) -> (r: bool)
        ensures
            r == self.vars().subset_of(scope(names@)),
    {
        names_subset(&self.vars, names)
    }

    /// Whether `self` dominates `other`.
    pub fn dominates(&self, other: &Algo) -> (r: bool)
        ensures
            r == Algo::dominates_spec(self, other),
    {
        names_subset(&other.vars, &self.vars) && self.costs_no_worse(other)
    }

    /// Comparison of two plans over the same variables: `Greater` when
    /// `self` is no slower, `Less` otherwise; `None` when the variables
    /// differ.
    pub fn compare1(&self, other: &Algo) -> (r: Option<Ordering>)
        ensures
            r == (if self.vars() == other.vars() {
                if self.spec_time() <= other.spec_time() {
                    Some(Ordering::Greater)
                } else {
                    Some(Ordering::Less)
                }
            } else {
                None
            }),
    {
        let same = names_subset(&self.vars, &other.vars) && names_subset(&other.vars, &self.vars);
        proof {
            if self.vars().subset_of(other.vars()) && other.vars().subset_of(self.vars()) {
                assert(self.vars() =~= other.vars());
            }
        }
        if same {
            if self.time <= other.time {
                Some(Ordering::Greater)
            } else {
                Some(Ordering::Less)
            }
        } else {
            None
        }
    }

    /// The variables the plan solves.
    pub fn get_all_variables(&self) -> (r: Vec<String>)
        requires
            self.wf(),
        ensures
            distinct(names_view(r@)),
            scope(r@) == self.vars(),
    {
        let r = copy_vars(&self.vars);
        proof {
            lemma_same_scope(r@, self.vars@);
        }
        r
    }

    /// The first sub-plan, for a fused plan.
    pub fn left(&self) -> (r: Option<&Algo>)
        ensures
            r matches Some(a) ==> self.left_spec() == Some(*a),
            r is None <==> self.left_spec() is None,
    {
        match &self.son1 {
            Some(b) => Some(&**b),
            None => None,
        }
    }

    /// The second sub-plan, for a fused plan.
    pub fn right(&self) -> (r: Option<&Algo>)
        ensures
            r matches Some(a) ==> self.right_spec() == Some(*a),
            r is None <==> self.right_spec() is None,
    {
        match &self.son2 {
            Some(b) => Some(&**b),
            None => None,
        }
    }

    pub fn get_time_complexity(&self) -> (r: usize)
        ensures
            r == self.spec_time(),
    {
        self.time
    }

    pub fn get_memory_complexity(&self) -> (r: usize)
        ensures
            r == self.spec_memory(),
    {
        self.memory
    }

    pub fn get_nb_solutions(&self) -> (r: usize)
        ensures
            r == self.spec_nb_solutions(),
    {
        self.nb_solutions
    }

    /// The leaf plan for `var`: unit time and memory, and the number of
    /// solutions that the matrix leaves to `var` alone.
    pub fn base_solver(matrix: &mut Matrix, var: String) -> (r: Result<Algo, MatrixError>)
        requires
            old(matrix).wf(),
        ensures
            final(matrix).wf(),
            final(matrix).spec_rows() == old(matrix).spec_rows(),
            final(matrix).spec_cols() == old(matrix).spec_cols(),
            final(matrix).spec_poly() == old(matrix).spec_poly(),
            Matrix::same_names(old(matrix), final(matrix)),
            r is Ok ==> Matrix::equivalent_up_to_columns(old(matrix), final(matrix)),
            match r {
                Ok(a) => {
                    &&& a.wf()
                    &&& a.is_leaf()
                    &&& a.vars() == set![var@]
                    &&& a.spec_time() == 1
                    &&& a.spec_memory() == 1
                    &&& a.fusion_count() == 0
                    &&& a.left_spec() is None && a.right_spec() is None
                    &&& Matrix::counts_solutions(final(matrix), seq![var], a.spec_nb_solutions())
                },
                Err(e) => e matches MatrixError::NotInvertible { .. } && final(matrix).spec_poly() != DEFAULT_POLY,
            },
    {
        let ghost v = var;
        let mut vars: Vec<String> = Vec::new();
        vars.push(var);
        assert(vars@ =~= seq![v]);
        assert(distinct(names_view(vars@)));
        match matrix.number_solutions(&vars) {
            Ok(nb) => {
                assert(vars@[0]@ == v@);
                assert(has_name(vars@, v@));
                assert(scope(vars@) =~= set![v@]);
                Ok(Algo { vars, time: 1, memory: 1, nb_solutions: nb, son1: None, son2: None })
            },
            Err(e) => Err(e),
        }
    }

    /// Fuses two plans into one over the union of their variables: the
    /// number of solutions is counted on the union, the time is the largest
    /// of the two times and that count, and the memory the largest of the
    /// two memories and the smaller of the two solution counts. Fails when
    /// the union exceeds `MAX_FUSION_VARS` variables.
    pub fn fusion_two_algo(a1: Box<Algo>, a2: Box<Algo>, matrix: &mut Matrix) -> (r: Result<Algo, PlanError>)
        requires
            old(matrix).wf(),
        ensures
            final(matrix).wf(),
            final(matrix).spec_rows() == old(matrix).spec_rows(),
            final(matrix).spec_cols() == old(matrix).spec_cols(),
            final(matrix).spec_poly() == old(matrix).spec_poly(),
            Matrix::same_names(old(matrix), final(matrix)),
            r is Ok ==> Matrix::equivalent_up_to_columns(old(matrix), final(matrix)),
            (r == Err::<Algo, PlanError>(PlanError::ResourceLimitExceeded)) <==> a1.vars().union(a2.vars()).len() > MAX_FUSION_VARS,
            match r {
                Ok(c) => {
                    &&& c.wf()
                    &&& !c.is_leaf()
                    &&& c.fusion_count() == 1 + a1.fusion_count() + a2.fusion_count()
                    &&& c.left_spec() == Some(*a1)
                    &&& c.right_spec() == Some(*a2)
                    &&& c.vars() == a1.vars().union(a2.vars())
                    &&& c.spec_time() >= a1.spec_time()
                    &&& c.spec_time() >= a2.spec_time()
                    &&& c.spec_time() >= c.spec_nb_solutions()
                    &&& (c.spec_time() == a1.spec_time() || c.spec_time() == a2.spec_time() || c.spec_time() == c.spec_nb_solutions())
                    &&& c.spec_memory() >= a1.spec_memory()
                    &&& c.spec_memory() >= a2.spec_memory()
                    &&& c.spec_memory() >= min_nat(a1.spec_nb_solutions(), a2.spec_nb_solutions())
                    &&& (c.spec_memory() == a1.spec_memory() || c.spec_memory() == a2.spec_memory()
                        || c.spec_memory() == min_nat(a1.spec_nb_solutions(), a2.spec_nb_solutions()))
                    &&& exists|u: Seq<String>| distinct(names_view(u)) && scope(u) == c.vars()
                        && #[trigger] Matrix::counts_solutions(final(matrix), u, c.spec_nb_solutions())
                },
                Err(PlanError::ResourceLimitExceeded) => true,
                Err(PlanError::Matrix(e)) => e matches MatrixError::NotInvertible { .. } && final(matrix).spec_poly() != DEFAULT_POLY,
                Err(PlanError::NothingToSolve) => false,
            },
    {
        let first = dedup_vars(&a1.vars);
        let union = union_vars(&first, &a2.vars);
        proof {
            lemma_scope_len(union@);
        }
        if union.len() > MAX_FUSION_VARS {
            return Err(PlanError::ResourceLimitExceeded);
        }
        let nb = match matrix.number_solutions(&union) {
            Ok(nb) => nb,
            Err(e) => {
                return Err(PlanError::Matrix(e));
            },
        };
        let mut time: usize = if a1.time >= a2.time {
            a1.time
        } else {
            a2.time
        };
        if nb > time {
            time = nb;
        }
        let smaller: usize = if a1.nb_solutions <= a2.nb_solutions {
            a1.nb_solutions
        } else {
            a2.nb_solutions
        };
        let mut memory: usize = if a1.memory >= a2.memory {
            a1.memory
        } else {
            a2.memory
        };
        if smaller > memory {
            memory = smaller;
        }
        let ghost u = union@;
        assert(Matrix::counts_solutions(matrix, u, nb as nat));
        let c = Algo { vars: union, time, memory, nb_solutions: nb, son1: Some(a1), son2: Some(a2) };
        assert(distinct(names_view(u)) && scope(u) == c.vars());
        assert(Matrix::counts_solutions(matrix, u, c.spec_nb_solutions()));
        assert(c.fusion_count() == 1 + a1.fusion_count() + a2.fusion_count());
        assert(c.spec_memory() >= min_nat(a1.spec_nb_solutions(), a2.spec_nb_solutions()));
        assert(c.vars() == a1.vars().union(a2.vars()));
        Ok(c)
    }
}

/// The set of names of a list without repeats has as many elements as the
/// list.
proof fn lemma_scope_len(v: Seq<String>)
    requires
        distinct(names_view(v)),
    ensures
        scope(v).finite(),
        scope(v).len() == v.len(),
{
    let nv = names_view(v);
    assert(nv.no_duplicates());
    nv.unique_seq_to_set();
    assert forall|n: Seq<char>| scope(v).contains(n) <==> nv.to_set().contains(n) by {
        if has_name(v, n) {
            let k = choose|k: int| 0 <= k < v.len() && #[trigger] v[k]@ == n;
            assert(nv[k] == n);
        }
        if nv.to_set().contains(n) {
            let k = choose|k: int| 0 <= k < nv.len() && nv[k] == n;
            assert(v[k]@ == n);
        }
    }
    assert(scope(v) =~= nv.to_set());
}

/// Dominance is well formed on comparable plans: when the variables of `b`
/// are among those of `a`, the comparison of `a` with `b` is defined, it
/// says `Greater` exactly when `a` dominates `b` and `Less` otherwise, and
/// equal costs count as `a` dominating `b`.
pub proof fn lemma_dominance_well_formed(a: &Algo, b: &Algo)
    requires
        b.vars().subset_of(a.vars()),
    ensures
        Algo::dominates_spec(a, b) <==> costs_le(
            a.spec_time(),
            a.spec_memory(),
            a.spec_nb_solutions(),
            b.spec_time(),
            b.spec_memory(),
            b.spec_nb_solutions(),
        ),
        a.spec_time() == b.spec_time() && a.spec_memory() == b.spec_memory()
            && a.spec_nb_solutions() == b.spec_nb_solutions() ==> Algo::dominates_spec(a, b),
        (if Algo::dominates_spec(a, b) {
            Some(Ordering::Greater)
        } else {
            Some(Ordering::Less)
        }) == (if b.vars().subset_of(a.vars()) {
            if Algo::dominates_spec(a, b) {
                Some(Ordering::Greater)
            } else {
                Some(Ordering::Less)
            }
        } else {
            None::<Ordering>
        }),
{
}

} // verus!
